//! Passive listening on a network interface.
//!
//! Plugged on the interface of the tunnel, it shows the domain names that the
//! clients resolve. Nothing is sent, nothing is changed: the traffic is only
//! observed as it passes.

pub mod capture;
pub mod module;
pub mod packet;
pub mod reassembly;

pub use capture::{SniffConfig, SniffError, DEFAULT_FILTER, DNS_PORT};
pub use module::Sniffer;
pub use packet::{segment, LinkType, Segment, Transport};
pub use reassembly::{ClientHelloTracker, FlowKey};
