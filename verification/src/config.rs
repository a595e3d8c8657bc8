//! Command-line arguments, the configuration file's contents and their defaults,
//! and the addresses the proxy listens on and forwards to.

use vstd::prelude::*;

use crate::text::{decimal, push_decimal};
use crate::whitelist::List;

verus! {

/// The command line: where the configuration file is.
pub struct Args {
    pub config: Option<String>,
}

/// The configuration file's contents.
pub struct Config {
    pub log_level: Option<String>,
    pub log_path: Option<String>,
    /// The port to listen on.
    pub port: Option<usize>,
    pub list: List,
}

/// The port used where the configuration names none.
pub const DEFAULT_PORT: usize = 3000;

/// What filling in the defaults makes of `before`: each missing field gets its
/// default, each given field and the list stay as they were.
pub open spec fn defaults_applied(before: Config, after: Config) -> bool {
    &&& after.port == Some(
        match before.port {
            Some(p) => p,
            None => DEFAULT_PORT,
        },
    )
    &&& match before.log_level {
        Some(l) => after.log_level == Some(l),
        None => after.log_level matches Some(l) && l@ == "info"@,
    }
    &&& match before.log_path {
        Some(p) => after.log_path == Some(p),
        None => after.log_path matches Some(p) && p@ == "/tmp/rua-list/log"@,
    }
    &&& after.list == before.list
}

/// Filling in the defaults a second time changes nothing.
pub proof fn lemma_defaults_settle(first: Config, second: Config, third: Config)
    requires
        defaults_applied(first, second),
        defaults_applied(second, third),
    ensures
        third == second,
{
}

impl Args {
    /// The configuration file to read: the one given, else `./config.json`.
    pub fn config_path(&self) -> (r: String)
        ensures
            match self.config {
                Some(p) => r@ == p@,
                None => r@ == "./config.json"@,
            },
    {
        match &self.config {
            Some(p) => p.clone(),
            None => String::from_str("./config.json"),
        }
    }
}

impl Config {
    /// Fills in what the file left out: port 3000, log level `info`, log path
    /// `/tmp/rua-list/log`. What the file gave stays as it was.
    pub fn apply_defaults(&mut self)
        ensures
            defaults_applied(*old(self), *final(self)),
    {
        if self.port.is_none() {
            self.port = Some(DEFAULT_PORT);
        }
        if self.log_level.is_none() {
            self.log_level = Some(String::from_str("info"));
        }
        if self.log_path.is_none() {
            self.log_path = Some(String::from_str("/tmp/rua-list/log"));
        }
    }

    /// The port to listen on: the configured one, else 3000.
    pub fn listen_port(&self) -> (r: usize)
        ensures
            r == match self.port {
                Some(p) => p,
                None => DEFAULT_PORT,
            },
    {
        match self.port {
            Some(p) => p,
            None => DEFAULT_PORT,
        }
    }
}

/// The address the proxy listens on: all interfaces, at `port`.
pub fn listen_address(port: usize) -> (r: String)
    ensures
        r@ == "0.0.0.0:"@ + decimal(port as nat),
{
    let mut out = String::from_str("0.0.0.0:");
    push_decimal(&mut out, port as u128);
    out
}

/// The address requests are forwarded to: this host, at the port after `port`.
pub fn upstream_address(port: usize) -> (r: String)
    requires
        port < usize::MAX,
    ensures
        r@ == "127.0.0.1:"@ + decimal(port as nat + 1),
{
    let mut out = String::from_str("127.0.0.1:");
    push_decimal(&mut out, (port + 1) as u128);
    out
}

} // verus!
