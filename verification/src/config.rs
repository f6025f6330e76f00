//! Node configuration as plain data. Reading and writing the on-disk
//! form is the surrounding process's concern.

use vstd::prelude::*;

verus! {

use crate::security::SecurityConfig;

/// Top-level node configuration.
#[derive(Debug)]
pub struct Config {
    /// Listening port for the transport.
    pub port: u16,
    /// Optional data directory override.
    pub data_dir: Option<String>,
    /// Addresses dialled at startup.
    pub bootstrap_peers: Vec<String>,
    /// Admission limits and lists.
    pub security: SecurityConfig,
}

impl Default for Config {
    /// Port 4001, no data-directory override, no bootstrap peers, and the
    /// default security limits.
    fn default() -> (c: Config)
        ensures
            c.port == 4001,
            c.data_dir is None,
            c.bootstrap_peers@.len() == 0,
            c.security.rate_limit_per_minute == 60,
            c.security.rate_limit_burst == 10,
            c.security.max_message_size == 1048576,
            c.security.max_key_length == 256,
            c.security.max_value_length == 65536,
            c.security.max_connections_per_ip == 10,
            c.security.blocked_peers@.len() == 0,
            c.security.allowed_peers is None,
    {
        Config {
            port: 4001,
            data_dir: None,
            bootstrap_peers: Vec::new(),
            security: SecurityConfig::default(),
        }
    }
}

} // verus!
