//! The filter as a module of the daemon.

use vstd::prelude::*;

use crate::env;
use crate::text;
use crate::wg;

use super::queue::{FilterConfig, DEFAULT_QUEUE};

verus! {

/// Cuts the connections to the domains of the blacklist.
#[derive(Debug)]
pub struct Blacklist {
    /// The settings of the filter.
    pub cfg: FilterConfig,
    /// The interface named in the rule that is shown at the start.
    pub interface: String,
}

/// The variables that the settings are read of, as the environment has them.
#[derive(Debug, Clone)]
pub struct BlacklistVars {
    /// `PERSES_QUEUE`.
    pub queue: Option<String>,
    /// `PERSES_INTERFACE`.
    pub interface: Option<String>,
}

/// The queue that a variable names; `None` where it says something that is no
/// number of a queue.
pub open spec fn queue_of(value: Option<Seq<char>>) -> Option<nat> {
    match env::present(value) {
        Some(v) => text::unsigned_value(v, u16::MAX as nat),
        None => Some(DEFAULT_QUEUE as nat),
    }
}

impl Blacklist {
    /// Reads the environment.
    ///
    /// A queue that cannot be read is no reason not to start: the usual one
    /// stands for it, and the second result is false.
    pub fn from_env(vars: &BlacklistVars) -> (r: (Self, bool))
        ensures
            r.0.cfg.verbose,
            match queue_of(text::option_view(vars.queue)) {
                Some(n) => r.0.cfg.queue == n && r.1,
                None => r.0.cfg.queue == DEFAULT_QUEUE && !r.1,
            },
            r.0.interface@ == env::or_usual(
                env::present(text::option_view(vars.interface)),
                wg::DEFAULT_INTERFACE@,
            ),
    {
        let mut cfg = FilterConfig::default();
        let mut readable = true;
        if let Some(queue) = env::read_present(&vars.queue) {
            match text::read_unsigned(text::chars_of(queue.as_str()).as_slice(), 65535) {
                Some(n) => {
                    cfg.queue = n as u16;
                },
                None => {
                    readable = false;
                },
            }
        }
        let interface = env::or_else(env::read_present(&vars.interface), wg::DEFAULT_INTERFACE);
        (Blacklist { cfg, interface }, readable)
    }
}

// ---------------------------------------------------------------------------
// Laws
// ---------------------------------------------------------------------------

/// Every queue of 16 bits can be named, and none greater; where none is named
/// it is the first.
pub proof fn law_queue_reads_back(n: nat)
    ensures
        queue_of(Some(text::decimal(n))) == (if n <= 65535 {
            Some(n)
        } else {
            None
        }),
        queue_of(None) == Some(0nat),
        queue_of(Some(Seq::empty())) == Some(0nat),
{
    text::lemma_decimal(n);
    text::law_number_reads_back(n, u16::MAX as nat, 0);
    assert(text::zeros(0) + text::decimal(n) =~= text::decimal(n));
}

} // verus!
