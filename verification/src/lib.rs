//! Request and response reading and proxy selection for a small reverse
//! HTTP proxy.
pub mod config;
pub mod connection;
pub mod error;
pub mod forward;
pub mod headers;
pub mod http;
pub mod proxy;
pub mod text;
