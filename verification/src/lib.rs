//! Verified core of a small SMS whitelist proxy: the whitelist decision, the
//! filtering of HTTP request heads, configuration defaults and log formatting.

pub mod text;
pub mod http_head;
pub mod whitelist;
pub mod config;
pub mod latency;
pub mod error;
