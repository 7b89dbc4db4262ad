//! The settings of the client, and how they are read and set by name.

use crate::errors::TriforgeError;
use crate::text::has_substring;
use crate::text::option_text;
use crate::text::to_chars;
use crate::text::without_prefixes;
use crate::text::str_eq;
use vstd::prelude::*;
use vstd::string::*;

verus! {

/// The settings of the client.
#[derive(Debug, Clone)]
pub struct AppConfig {
    pub hyrule_server: String,
    pub auth_token: Option<String>,
    pub username: Option<String>,
    pub default_private: bool,
    pub use_tor: bool,
    pub tor_proxy: String,
    pub verify_ssl: bool,
}

/// The settings as a mathematical value.
pub struct ConfigView {
    pub hyrule_server: Seq<char>,
    pub auth_token: Option<Seq<char>>,
    pub username: Option<Seq<char>>,
    pub default_private: bool,
    pub use_tor: bool,
    pub tor_proxy: Seq<char>,
    pub verify_ssl: bool,
}

impl View for AppConfig {
    type V = ConfigView;

    open spec fn view(&self) -> ConfigView {
        ConfigView {
            hyrule_server: self.hyrule_server@,
            auth_token: option_text(self.auth_token),
            username: option_text(self.username),
            default_private: self.default_private,
            use_tor: self.use_tor,
            tor_proxy: self.tor_proxy@,
            verify_ssl: self.verify_ssl,
        }
    }
}

/// The settings that can be read and set by name.
#[derive(Debug, Clone, Copy, PartialEq, Eq, Structural)]
pub enum Setting {
    Server,
    Username,
    Token,
    Private,
    Tor,
    Proxy,
    Ssl,
}

/// The setting that `name` names. Each setting has a short and a long name.
pub open spec fn setting_of(name: Seq<char>) -> Option<Setting> {
    if name == "server"@ || name == "hyrule_server"@ {
        Some(Setting::Server)
    } else if name == "username"@ {
        Some(Setting::Username)
    } else if name == "token"@ || name == "auth_token"@ {
        Some(Setting::Token)
    } else if name == "private"@ || name == "default_private"@ {
        Some(Setting::Private)
    } else if name == "tor"@ || name == "use_tor"@ {
        Some(Setting::Tor)
    } else if name == "proxy"@ || name == "tor_proxy"@ {
        Some(Setting::Proxy)
    } else if name == "ssl"@ || name == "verify_ssl"@ {
        Some(Setting::Ssl)
    } else {
        None
    }
}

/// The truth value that `text` is: `true` or `false`, written exactly so.
pub open spec fn bool_of(text: Seq<char>) -> Option<bool> {
    if text == "true"@ {
        Some(true)
    } else if text == "false"@ {
        Some(false)
    } else {
        None
    }
}

/// How a truth value is written.
pub open spec fn bool_text(value: bool) -> Seq<char> {
    if value {
        "true"@
    } else {
        "false"@
    }
}

/// The address of the server that the client talks to unless told otherwise.
pub open spec fn default_server() -> Seq<char> {
    "https://hyrule4e3tu7pfdkvvca43senvgvgisi6einpe3d3kpidlk3uyjf7lqd.onion/"@
}

/// The address of the proxy that the client uses for Tor unless told otherwise.
pub open spec fn default_proxy() -> Seq<char> {
    "socks5://127.0.0.1:9050"@
}

/// What setting `setting` to `value` makes of `config`, or `None` where the
/// setting is a truth value and `value` is none.
pub open spec fn with_setting(config: ConfigView, setting: Setting, value: Seq<char>) -> Option<
    ConfigView,
> {
    match setting {
        Setting::Server => Some(ConfigView { hyrule_server: value, ..config }),
        Setting::Username => Some(ConfigView { username: Some(value), ..config }),
        Setting::Token => Some(ConfigView { auth_token: Some(value), ..config }),
        Setting::Proxy => Some(ConfigView { tor_proxy: value, ..config }),
        Setting::Private => match bool_of(value) {
            Some(b) => Some(ConfigView { default_private: b, ..config }),
            None => None,
        },
        Setting::Tor => match bool_of(value) {
            Some(b) => Some(ConfigView { use_tor: b, ..config }),
            None => None,
        },
        Setting::Ssl => match bool_of(value) {
            Some(b) => Some(ConfigView { verify_ssl: b, ..config }),
            None => None,
        },
    }
}

/// What `config` holds for `setting`, as text.
pub open spec fn setting_text(config: ConfigView, setting: Setting) -> Option<Seq<char>> {
    match setting {
        Setting::Server => Some(config.hyrule_server),
        Setting::Username => config.username,
        Setting::Token => config.auth_token,
        Setting::Proxy => Some(config.tor_proxy),
        Setting::Private => Some(bool_text(config.default_private)),
        Setting::Tor => Some(bool_text(config.use_tor)),
        Setting::Ssl => Some(bool_text(config.verify_ssl)),
    }
}

/// The setting that `name` names.
pub fn setting_named(name: &str) -> (setting: Option<Setting>)
    ensures
        setting == setting_of(name@),
{
    if str_eq(name, "server") || str_eq(name, "hyrule_server") {
        Some(Setting::Server)
    } else if str_eq(name, "username") {
        Some(Setting::Username)
    } else if str_eq(name, "token") || str_eq(name, "auth_token") {
        Some(Setting::Token)
    } else if str_eq(name, "private") || str_eq(name, "default_private") {
        Some(Setting::Private)
    } else if str_eq(name, "tor") || str_eq(name, "use_tor") {
        Some(Setting::Tor)
    } else if str_eq(name, "proxy") || str_eq(name, "tor_proxy") {
        Some(Setting::Proxy)
    } else if str_eq(name, "ssl") || str_eq(name, "verify_ssl") {
        Some(Setting::Ssl)
    } else {
        None
    }
}

/// The truth value that `text` is.
pub fn parse_bool(text: &str) -> (value: Option<bool>)
    ensures
        value == bool_of(text@),
{
    if str_eq(text, "true") {
        Some(true)
    } else if str_eq(text, "false") {
        Some(false)
    } else {
        None
    }
}

/// `true` or `false`, as it is shown.
fn bool_string(value: bool) -> (text: String)
    ensures
        text@ == bool_text(value),
{
    if value {
        "true".to_string()
    } else {
        "false".to_string()
    }
}

/// A copy of an optional text.
fn copy_option(text: &Option<String>) -> (copy: Option<String>)
    ensures
        option_text(copy) == option_text(*text),
{
    match text {
        Some(t) => Some(t.clone()),
        None => None,
    }
}

impl Default for AppConfig {
    /// The settings of a client that was never configured.
    fn default() -> (config: AppConfig)
        ensures
            config@ == (ConfigView {
                hyrule_server: default_server(),
                auth_token: None,
                username: None,
                default_private: false,
                use_tor: false,
                tor_proxy: default_proxy(),
                verify_ssl: true,
            }),
    {
        AppConfig {
            hyrule_server: "https://hyrule4e3tu7pfdkvvca43senvgvgisi6einpe3d3kpidlk3uyjf7lqd.onion/".to_string(),
            auth_token: None,
            username: None,
            default_private: false,
            use_tor: false,
            tor_proxy: "socks5://127.0.0.1:9050".to_string(),
            verify_ssl: true,
        }
    }
}

impl AppConfig {
    /// Sets the setting named `key` to `value`. A name that names no
    /// setting, and a value that is no truth value where one is needed, are
    /// refused with a message, and nothing is changed.
    pub fn set(&mut self, key: &str, value: &str) -> (done: Result<(), TriforgeError>)
        ensures
            match setting_of(key@) {
                None => done matches Err(TriforgeError::ConfigError(msg)) && msg@
                    == "Unknown configuration key: "@ + key@ && final(self)@ == old(self)@,
                Some(setting) => match with_setting(old(self)@, setting, value@) {
                    Some(config) => done is Ok && final(self)@ == config,
                    None => done matches Err(TriforgeError::ConfigError(msg)) && msg@
                        == "Invalid boolean value"@ && final(self)@ == old(self)@,
                },
            },
    {
        let setting = match setting_named(key) {
            Some(setting) => setting,
            None => {
                let message = "Unknown configuration key: ".to_string().concat(key);
                return Err(TriforgeError::ConfigError(message));
            },
        };
        match setting {
            Setting::Server => {
                self.hyrule_server = value.to_string();
            },
            Setting::Username => {
                self.username = Some(value.to_string());
            },
            Setting::Token => {
                self.auth_token = Some(value.to_string());
            },
            Setting::Proxy => {
                self.tor_proxy = value.to_string();
            },
            Setting::Private => match parse_bool(value) {
                Some(b) => {
                    self.default_private = b;
                },
                None => {
                    return Err(TriforgeError::ConfigError("Invalid boolean value".to_string()));
                },
            },
            Setting::Tor => match parse_bool(value) {
                Some(b) => {
                    self.use_tor = b;
                },
                None => {
                    return Err(TriforgeError::ConfigError("Invalid boolean value".to_string()));
                },
            },
            Setting::Ssl => match parse_bool(value) {
                Some(b) => {
                    self.verify_ssl = b;
                },
                None => {
                    return Err(TriforgeError::ConfigError("Invalid boolean value".to_string()));
                },
            },
        }
        Ok(())
    }

    /// What the setting named `key` holds, as text, or `None` where the
    /// name names no setting or the setting holds nothing.
    pub fn get(&self, key: &str) -> (value: Option<String>)
        ensures
            option_text(value) == match setting_of(key@) {
                Some(setting) => setting_text(self@, setting),
                None => None,
            },
    {
        match setting_named(key) {
            Some(Setting::Server) => Some(self.hyrule_server.clone()),
            Some(Setting::Username) => copy_option(&self.username),
            Some(Setting::Token) => copy_option(&self.auth_token),
            Some(Setting::Proxy) => Some(self.tor_proxy.clone()),
            Some(Setting::Private) => Some(bool_string(self.default_private)),
            Some(Setting::Tor) => Some(bool_string(self.use_tor)),
            Some(Setting::Ssl) => Some(bool_string(self.verify_ssl)),
            None => None,
        }
    }
}

impl AppConfig {
    /// The address of the Tor proxy as host and port: the setting without
    /// `socks5://` in front of it, as often as it stands there.
    pub fn proxy_address(&self) -> (address: String)
        ensures
            address@ == without_prefixes(self.tor_proxy@, "socks5://"@),
    {
        let proxy = self.tor_proxy.as_str();
        let chars = to_chars(proxy);
        let scheme = to_chars("socks5://");
        assert(chars@.skip(0) =~= chars@);
        let start = crate::text::skip_prefixes(chars.as_slice(), 0, scheme.as_slice());
        assert(chars@.skip(start as int) =~= proxy@.subrange(start as int, proxy@.len() as int));
        proxy.substring_char(start, chars.len()).to_string()
    }

    /// Whether the server is a hidden service: whether its address holds `.onion`.
    pub fn is_onion(&self) -> (onion: bool)
        ensures
            onion == has_substring(self.hyrule_server@, ".onion"@),
    {
        crate::text::str_contains(self.hyrule_server.as_str(), ".onion")
    }
}

} // verus!
