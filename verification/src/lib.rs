//! Observes, filters and answers the traffic of a WireGuard tunnel.

pub mod bytes;
pub mod cache;
pub mod dns;
pub mod env;
pub mod fault;
pub mod filter;
pub mod ip;
pub mod name;
pub mod report;
pub mod sniff;
pub mod starter;
pub mod text;
pub mod tls;
pub mod wg;
