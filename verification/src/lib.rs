//! Content-addressed object storage for a small version-control client.
//!
//! A repository keeps immutable objects (blobs, trees, commits, tags), each
//! named by the digest of its canonical form, and references that point at
//! them. There are two backends. The plain one ([`native_git`]) lays its
//! objects out as Git does and names them by SHA-1. The private one
//! ([`tri`]) names them by BLAKE3 and can deflate and encrypt them.
//!
//! The library does no input or output and reads no clock. A repository's
//! directory is held in memory as a [`files::FileTree`]; the caller reads it
//! from disk and writes it back, and hands in the time where a commit is
//! built. What the library computes is stated in the contracts of its
//! functions and proved; what it takes on trust from other crates and from
//! the standard library (digests, deflate, base64, UTF-8 decoding) is
//! marked where it is called.
//!
//! The library is meant for one user running one command at a time. It
//! takes no locks: two commands that write to the same repository at once
//! can overwrite each other's references, and the last writer wins. Objects
//! suffer less from this, since what is written for an object depends on
//! nothing but the object.

pub mod account;
pub mod bytes;
pub mod compression;
pub mod config;
pub mod errors;
pub mod files;
pub mod hexcode;
pub mod names;
pub mod native_git;
pub mod remotes;
pub mod text;
pub mod transfer;
pub mod tri;
