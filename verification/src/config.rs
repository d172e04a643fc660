//! The proxy's configuration: the port it serves and the routes it forwards.
use vstd::prelude::*;

verus! {

/// Represents the global configuration of the proxy.
#[derive(Debug)]
pub struct Config {
    /// Port number the proxy listens on.
    pub port: i32,
    /// Proxy definitions.
    pub proxies: Vec<ProxyConfig>,
}

/// Represents a proxy configuration.
#[derive(Debug, Clone)]
pub struct ProxyConfig {
    /// Target path such as "/blog/new-article" or "/api/auth".
    pub path: String,
    /// Target domain which could be an IP address or domain name.
    pub target: String,
    /// Target port number. Mostly 80 or 443 for webpage proxies.
    pub target_port: i32,
    /// Whether this proxy talks to its target over TLS.
    pub use_tls: Option<bool>,
}

impl ProxyConfig {
    /// Whether connections to the target use TLS (no setting means no).
    pub fn wants_tls(&self) -> (r: bool)
        ensures
            r == (self.use_tls == Some(true)),
    {
        match self.use_tls {
            Some(b) => b,
            None => false,
        }
    }
}

} // verus!
