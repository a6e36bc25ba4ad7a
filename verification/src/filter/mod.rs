//! Cutting the connections to the domains of the blacklist.
//!
//! The traffic of the tunnel goes through an NFQUEUE queue; the kernel waits
//! for a verdict on each packet. The server name of the ClientHello is read,
//! the blacklist is asked, and the packet passes or not.
//!
//! The rule that feeds the queue is set beforehand:
//!
//! ```sh
//! iptables -I FORWARD -i wg0 -p tcp --dport 443 -j NFQUEUE --queue-num 0
//! ```
//!
//! and removed afterwards, with `-D` in the same line. Without a program on
//! the queue, the packets that it gets are lost.

pub mod module;
pub mod policy;
pub mod queue;

pub use module::Blacklist;
pub use policy::{Decision, Policy, Verdict, BLACKLIST_SET, SEEN_SET};
pub use queue::{filter, iptables_rule, FilterConfig, FilterError, DEFAULT_QUEUE};
