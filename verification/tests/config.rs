use triforge::config::parse_bool;
use triforge::config::setting_named;
use triforge::config::AppConfig;
use triforge::config::Setting;
use triforge::errors::StoreError;
use triforge::errors::TriforgeError;

fn message(done: Result<(), TriforgeError>) -> String {
    match done {
        Err(e) => e.message(),
        Ok(()) => panic!("the setting was accepted"),
    }
}

#[test]
fn the_default_settings_of_the_client() {
    let config = AppConfig::default();
    assert_eq!(
        config.hyrule_server,
        "https://hyrule4e3tu7pfdkvvca43senvgvgisi6einpe3d3kpidlk3uyjf7lqd.onion/"
    );
    assert_eq!(config.auth_token, None);
    assert_eq!(config.username, None);
    assert!(!config.default_private);
    assert!(!config.use_tor);
    assert_eq!(config.tor_proxy, "socks5://127.0.0.1:9050");
    assert!(config.verify_ssl);
}

#[test]
fn settings_are_read_by_either_name() {
    let config = AppConfig::default();
    assert_eq!(config.get("server"), Some(config.hyrule_server.clone()));
    assert_eq!(config.get("hyrule_server"), Some(config.hyrule_server.clone()));
    assert_eq!(config.get("username"), None);
    assert_eq!(config.get("token"), None);
    assert_eq!(config.get("auth_token"), None);
    assert_eq!(config.get("private"), Some("false".to_string()));
    assert_eq!(config.get("default_private"), Some("false".to_string()));
    assert_eq!(config.get("tor"), Some("false".to_string()));
    assert_eq!(config.get("use_tor"), Some("false".to_string()));
    assert_eq!(config.get("proxy"), Some("socks5://127.0.0.1:9050".to_string()));
    assert_eq!(config.get("tor_proxy"), Some("socks5://127.0.0.1:9050".to_string()));
    assert_eq!(config.get("ssl"), Some("true".to_string()));
    assert_eq!(config.get("verify_ssl"), Some("true".to_string()));
    assert_eq!(config.get("nothing"), None);
    assert_eq!(config.get(""), None);
    assert_eq!(config.get("Server"), None);
}

#[test]
fn settings_are_set_by_either_name() {
    let mut config = AppConfig::default();
    assert!(config.set("server", "http://localhost:3000").is_ok());
    assert!(config.set("username", "link").is_ok());
    assert!(config.set("auth_token", "SECRET-REDACTED").is_ok());
    assert!(config.set("private", "true").is_ok());
    assert!(config.set("use_tor", "true").is_ok());
    assert!(config.set("proxy", "socks5://10.0.0.1:9050").is_ok());
    assert!(config.set("ssl", "false").is_ok());
    assert_eq!(config.hyrule_server, "http://localhost:3000");
    assert_eq!(config.username, Some("link".to_string()));
    assert_eq!(config.auth_token, Some("SECRET-REDACTED".to_string()));
    assert!(config.default_private);
    assert!(config.use_tor);
    assert_eq!(config.tor_proxy, "socks5://10.0.0.1:9050");
    assert!(!config.verify_ssl);
    assert_eq!(config.get("token"), Some("SECRET-REDACTED".to_string()));
    assert_eq!(config.get("username"), Some("link".to_string()));
    assert_eq!(config.get("tor"), Some("true".to_string()));
}

#[test]
fn an_unknown_name_is_refused() {
    let mut config = AppConfig::default();
    assert_eq!(
        message(config.set("colour", "green")),
        "Configuration error: Unknown configuration key: colour"
    );
    assert_eq!(config.get("server"), AppConfig::default().get("server"));
}

#[test]
fn a_truth_value_is_true_or_false_and_nothing_else() {
    let mut config = AppConfig::default();
    for bad in ["yes", "1", "True", "TRUE", "", " true", "false "] {
        assert_eq!(message(config.set("tor", bad)), "Configuration error: Invalid boolean value");
        assert_eq!(message(config.set("private", bad)), "Configuration error: Invalid boolean value");
        assert_eq!(message(config.set("ssl", bad)), "Configuration error: Invalid boolean value");
    }
    assert!(!config.use_tor);
    assert!(!config.default_private);
    assert!(config.verify_ssl);
    assert_eq!(parse_bool("true"), Some(true));
    assert_eq!(parse_bool("false"), Some(false));
    assert_eq!(parse_bool("maybe"), None);
}

#[test]
fn names_of_settings() {
    assert_eq!(setting_named("server"), Some(Setting::Server));
    assert_eq!(setting_named("tor_proxy"), Some(Setting::Proxy));
    assert_eq!(setting_named("token"), Some(Setting::Token));
    assert_eq!(setting_named("tokens"), None);
}

#[test]
fn the_messages_of_the_client() {
    assert_eq!(TriforgeError::NotGitRepo.message(), "Not a git repository");
    assert_eq!(
        TriforgeError::NotAuthenticated.message(),
        "Authentication required. Run 'triforge login' first"
    );
    assert_eq!(TriforgeError::RepoNotFound("abc".to_string()).message(), "Repository not found: abc");
    assert_eq!(TriforgeError::NetworkError("down".to_string()).message(), "Network error: down");
    assert_eq!(TriforgeError::GitError("bad".to_string()).message(), "Git error: bad");
    assert_eq!(
        TriforgeError::InvalidHash("zz".to_string()).message(),
        "Invalid repository hash: zz"
    );
    assert_eq!(
        TriforgeError::ConfigError("what".to_string()).message(),
        "Configuration error: what"
    );
}

#[test]
fn the_messages_of_the_store() {
    assert_eq!(StoreError::NotFound.message(), "not found");
    assert_eq!(StoreError::InvalidFormat.message(), "invalid format");
    assert_eq!(StoreError::TypeMismatch.message(), "type mismatch");
    assert_eq!(StoreError::AlreadyExists.message(), "already exists");
}

#[test]
fn the_proxy_is_reached_at_host_and_port() {
    let mut config = AppConfig::default();
    assert_eq!(config.proxy_address(), "127.0.0.1:9050");
    config.tor_proxy = "socks5://socks5://10.0.0.1:9".to_string();
    assert_eq!(config.proxy_address(), "10.0.0.1:9");
    config.tor_proxy = "localhost:9050".to_string();
    assert_eq!(config.proxy_address(), "localhost:9050");
    config.tor_proxy = "".to_string();
    assert_eq!(config.proxy_address(), "");
}

#[test]
fn a_hidden_service_is_known_by_its_address() {
    let mut config = AppConfig::default();
    assert!(config.is_onion());
    config.hyrule_server = "http://localhost:3000".to_string();
    assert!(!config.is_onion());
    config.hyrule_server = "http://example.onio".to_string();
    assert!(!config.is_onion());
}
