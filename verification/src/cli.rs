//! Command-line commands and the credentials the server starts with.

use vstd::prelude::*;
use crate::auth::Credentials;

verus! {

/// The parsed command line.
pub struct Cli {
    pub command: Commands,
}

/// The commands of the command line.
pub enum Commands {
    /// Start the server.
    Serve {
        config: Option<String>,
        host: String,
        port: u16,
        data_dir: String,
        access_key: Option<String>,
        secret_key: Option<String>,
        no_ui: bool,
        log_level: String,
    },
    /// Write an example configuration file.
    InitConfig,
    /// Check a configuration file.
    ValidateConfig {
        config: String,
    },
}

/// The administrator credentials the server starts with: the given access and secret key
/// when both are given, else `tinystore` / `tinystore123`.
pub fn initial_credentials(access_key: Option<String>, secret_key: Option<String>) -> (c: Credentials)
    ensures
        c.is_admin,
        match (access_key, secret_key) {
            (Some(a), Some(s)) => c.access_key@ == a@ && c.secret_key@ == s@,
            _ => c.access_key@ == "tinystore"@ && c.secret_key@ == "tinystore123"@,
        },
{
    match (access_key, secret_key) {
        (Some(a), Some(s)) => Credentials::new(a, s, true),
        _ => Credentials::new(String::from_str("tinystore"), String::from_str("tinystore123"), true),
    }
}

} // verus!
