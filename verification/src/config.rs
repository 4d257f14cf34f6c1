//! Server configuration: defaults and environment overrides.

use vstd::prelude::*;
use crate::text::{parse_unsigned};
use crate::time::opt_view;

verus! {

/// Where the server listens.
pub struct ServerConfig {
    pub host: String,
    pub port: u16,
}

impl Default for ServerConfig {
    /// `0.0.0.0`, port 9000.
    fn default() -> (c: ServerConfig)
        ensures
            c.host@ == "0.0.0.0"@,
            c.port == 9000,
    {
        ServerConfig { host: String::from_str("0.0.0.0"), port: 9000 }
    }
}

/// Which storage backend to use and where it keeps its data.
pub struct StorageConfig {
    pub backend: String,
    pub data_dir: String,
}

impl Default for StorageConfig {
    /// The filesystem backend in `./data`.
    fn default() -> (c: StorageConfig)
        ensures
            c.backend@ == "filesystem"@,
            c.data_dir@ == "./data"@,
    {
        StorageConfig { backend: String::from_str("filesystem"), data_dir: String::from_str("./data") }
    }
}

/// Whether requests must be authenticated.
pub struct AuthConfig {
    pub enabled: bool,
}

impl Default for AuthConfig {
    /// Authentication on.
    fn default() -> (c: AuthConfig)
        ensures
            c.enabled,
    {
        AuthConfig { enabled: true }
    }
}

/// Whether the web UI is served, and under which path.
pub struct UiConfig {
    pub enabled: bool,
    pub path: String,
}

impl Default for UiConfig {
    /// The UI on, under `/ui`.
    fn default() -> (c: UiConfig)
        ensures
            c.enabled,
            c.path@ == "/ui"@,
    {
        UiConfig { enabled: true, path: String::from_str("/ui") }
    }
}

/// The whole configuration.
pub struct Config {
    pub server: ServerConfig,
    pub storage: StorageConfig,
    pub auth: AuthConfig,
    pub ui: UiConfig,
}

impl Default for Config {
    /// Each section's default.
    fn default() -> (c: Config)
        ensures
            c.server.host@ == "0.0.0.0"@,
            c.server.port == 9000,
            c.storage.backend@ == "filesystem"@,
            c.storage.data_dir@ == "./data"@,
            c.auth.enabled,
            c.ui.enabled,
            c.ui.path@ == "/ui"@,
    {
        Config {
            server: ServerConfig::default(),
            storage: StorageConfig::default(),
            auth: AuthConfig::default(),
            ui: UiConfig::default(),
        }
    }
}

/// Errors of loading a configuration.
pub enum ConfigError {
    Message(String),
}

impl Config {
    /// The configuration with the environment's overrides applied: `TINYSTORE_HOST` replaces
    /// the host, `TINYSTORE_PORT` the port when it is a number that fits, `TINYSTORE_DATA_DIR`
    /// the data directory. Each argument is the variable's value where it is set.
    pub fn with_overrides(self, host: Option<String>, port: Option<String>, data_dir: Option<String>) -> (c: Config)
        ensures
            c.server.host@ == (match host { Some(h) => h@, None => self.server.host@ }),
            c.server.port == (match port {
                Some(p) => match parse_unsigned(p@, u16::MAX as nat) {
                    Some(n) => n as u16,
                    None => self.server.port,
                },
                None => self.server.port,
            }),
            c.storage.data_dir@ == (match data_dir { Some(d) => d@, None => self.storage.data_dir@ }),
            c.storage.backend@ == self.storage.backend@,
            c.auth.enabled == self.auth.enabled,
            c.ui.enabled == self.ui.enabled,
            c.ui.path@ == self.ui.path@,
    {
        let mut config = self;
        if let Some(h) = host {
            config.server.host = h;
        }
        if let Some(p) = port {
            match crate::text::parse_u64(p.as_str()) {
                Some(n) => {
                    if n <= 65535 {
                        config.server.port = n as u16;
                    }
                },
                None => {},
            }
        }
        if let Some(d) = data_dir {
            config.storage.data_dir = d;
        }
        config
    }
}

} // verus!
