[package]
name = "triforge"
version = "0.1.0"
edition = "2021"
publish = false

[dependencies]
anyhow = "1"
base64 = "0.21"
blake3 = "1"
chrono = "0.4"
clap = { version = "4", features = ["derive"] }
colored = "2"
dirs = "5"
flate2 = "1"
git2 = "0.19"
hex = "0.4"
indicatif = "0.17"
reqwest = { version = "0.12", features = ["json", "socks"] }
rpassword = "7"
serde = { version = "1", features = ["derive"] }
serde_json = "1"
sha1 = "0.10"
tar = "0.4"
thiserror = "1"
tokio = { version = "1", features = ["full"] }
toml = "0.8"
urlencoding = "2"
walkdir = "2"
