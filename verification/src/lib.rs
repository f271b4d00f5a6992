pub mod api;
pub mod error;
pub mod laws;
pub mod matching;
pub mod metrics;
pub mod models;
pub mod orderbook;
pub mod sources;

use vstd::prelude::*;

use crate::sources::{parse_port, parse_u16};

verus! {

/// Server configuration
#[derive(Debug)]
pub struct ServerConfig {
    pub host: String,
    pub port: u16,
}

impl Default for ServerConfig {
    /// Listen on every interface, port 8080.
    fn default() -> (config: Self)
        ensures
            config.host@ == "0.0.0.0"@,
            config.port == 8080,
    {
        broadcast use vstd::string::to_string_from_display_ensures_for_str;

        ServerConfig { host: "0.0.0.0".to_string(), port: 8080 }
    }
}

impl ServerConfig {
    pub fn new(host: String, port: u16) -> (config: Self)
        ensures
            config.host == host,
            config.port == port,
    {
        ServerConfig { host, port }
    }
}

/// The configuration from an optional host and an optional port text: the
/// host defaults to every interface, the port to 8080, and a port text that
/// is not a `u16` is refused.
pub fn config_from(host: Option<String>, port: Option<String>) -> (r: Result<ServerConfig, String>)
    ensures
        match port {
            Some(p) if parse_u16(p@) is None => r matches Err(m) && m@ == "PORT must be a valid number"@,
            _ => r matches Ok(c) && c.host@ == (match host {
                Some(h) => h@,
                None => "0.0.0.0"@,
            }) && c.port == (match port {
                Some(p) => parse_u16(p@)->0,
                None => 8080u16,
            }),
        },
{
    broadcast use vstd::string::to_string_from_display_ensures_for_str;

    let host = match host {
        Some(h) => h,
        None => "0.0.0.0".to_string(),
    };
    let port = match port {
        Some(p) => match parse_port(p.as_str()) {
            Some(n) => n,
            None => {
                return Err("PORT must be a valid number".to_string());
            },
        },
        None => 8080,
    };
    Ok(ServerConfig { host, port })
}

} // verus!
