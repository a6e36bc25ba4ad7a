//! Where the reports go, and at what pace.

use vstd::prelude::*;

use crate::env;
use crate::text;

verus! {

/// The file that the reports are written to, a line each.
pub const DEFAULT_SOCKET: &'static str = "/tmp/perses.socket";

/// How many reports may wait to be written before some are thrown away.
pub const DEFAULT_QUEUE: usize = 256;

/// How long the state of the peers is used again, in nanoseconds: 5 seconds.
pub const DEFAULT_PEERS_TTL: u128 = 5_000_000_000;

/// The settings of the reporter.
#[derive(Debug, Clone)]
pub struct ReportConfig {
    /// The file that the reports are written to.
    pub socket: String,
    /// The size of the queue between the capture and the writing.
    pub queue: usize,
    /// How fresh the state of the peers has to be, in nanoseconds.
    pub peers_ttl: u128,
}

/// The variables that the settings are read of, as the environment has them.
#[derive(Debug, Clone)]
pub struct ReportVars {
    /// `PERSES_SOCKET`.
    pub socket: Option<String>,
    /// `PERSES_REPORT_QUEUE`.
    pub queue: Option<String>,
    /// `PERSES_PEERS_TTL`, in seconds.
    pub peers_ttl: Option<String>,
}

/// The settings are what the variables say, and as usual where they say
/// nothing.
pub open spec fn reads_vars(r: ReportConfig, vars: ReportVars) -> bool {
    &&& r.socket@ == (match env::filled(text::option_view(vars.socket)) {
        Some(path) => path,
        None => DEFAULT_SOCKET@,
    })
    &&& r.queue == (match env::filled_number(text::option_view(vars.queue), usize::MAX as nat) {
        Some(n) if n > 0 => n,
        _ => DEFAULT_QUEUE as nat,
    })
    &&& r.peers_ttl == (match env::filled_number(
        text::option_view(vars.peers_ttl),
        u64::MAX as nat,
    ) {
        Some(seconds) => seconds * 1_000_000_000,
        None => DEFAULT_PEERS_TTL as nat,
    })
}

impl ReportConfig {
    /// Reads the environment. Nothing is needed: what is missing or cannot be
    /// read is as usual.
    pub fn from_env(vars: &ReportVars) -> (r: Self)
        ensures
            reads_vars(r, *vars),
    {
        ReportConfig {
            socket: match env::read_filled(&vars.socket) {
                Some(path) => path,
                None => text::copy(DEFAULT_SOCKET),
            },
            queue: match env::read_filled_number(&vars.queue, usize::MAX as u64) {
                Some(n) if n > 0 => n as usize,
                _ => DEFAULT_QUEUE,
            },
            peers_ttl: match env::read_filled_number(&vars.peers_ttl, u64::MAX) {
                Some(seconds) => seconds as u128 * 1_000_000_000,
                None => DEFAULT_PEERS_TTL,
            },
        }
    }
}

impl Default for ReportConfig {
    fn default() -> (r: Self)
        ensures
            r.socket@ == DEFAULT_SOCKET@,
            r.queue == DEFAULT_QUEUE,
            r.peers_ttl == DEFAULT_PEERS_TTL,
    {
        ReportConfig {
            socket: text::copy(DEFAULT_SOCKET),
            queue: DEFAULT_QUEUE,
            peers_ttl: DEFAULT_PEERS_TTL,
        }
    }
}

// ---------------------------------------------------------------------------
// Laws
// ---------------------------------------------------------------------------

/// Settings that are written to the environment are read back of it. What is
/// missing is as usual, and so is a queue of no size.
pub proof fn law_settings_read_back(
    r: ReportConfig,
    vars: ReportVars,
    queue: nat,
    seconds: nat,
    at: int,
)
    requires
        reads_vars(r, vars),
    ensures
        vars.socket matches Some(v) ==> (0 <= at < v@.len() && !text::is_space(v@[at])
            ==> r.socket@ == v@),
        vars.socket is None ==> r.socket@ == "/tmp/perses.socket"@,
        vars.queue matches Some(v) ==> (v@ == text::decimal(queue) && queue <= usize::MAX
            ==> r.queue == (if queue > 0 {
            queue
        } else {
            256
        })),
        vars.queue is None ==> r.queue == 256,
        vars.peers_ttl matches Some(v) ==> (v@ == text::decimal(seconds) && seconds <= u64::MAX
            ==> r.peers_ttl == seconds * 1_000_000_000),
        vars.peers_ttl is None ==> r.peers_ttl == 5_000_000_000,
{
    if let Some(v) = vars.socket {
        env::law_blank_variable_says_nothing(v@, at);
    }
    let other = seq!['x'];
    env::law_number_variable_reads_back(queue, usize::MAX as nat, other, 0);
    env::law_number_variable_reads_back(seconds, u64::MAX as nat, other, 0);
}

} // verus!
