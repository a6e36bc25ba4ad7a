//! Telling the local collector of the domains that are known.
//!
//! When the capture meets a domain that the cache knows, a line of JSON says
//! who asked for it: the public key of the WireGuard peer, its endpoint, its
//! counters, and the interface that saw it pass.

pub mod client;
pub mod config;
pub mod json;

pub use client::{payload, Observation};
pub use config::{ReportConfig, DEFAULT_SOCKET};
