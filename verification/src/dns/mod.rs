//! The DNS protocol: read, then served.

pub mod message;
pub mod module;
pub mod policy;
pub mod server;

pub use message::{id, nxdomain, parse_query, ParseError, Query, RCODE_NXDOMAIN};
pub use module::Resolver;
pub use policy::{Decision, Policy, Verdict};
pub use server::{serve, DnsConfig, DnsError, DEFAULT_UPSTREAM, DNS_PORT};
