//! What can go wrong with the cache.

use vstd::prelude::*;

verus! {

/// What Redis says when something fails.
#[derive(Debug)]
pub struct RedisFault {
    /// The connection was dropped.
    pub dropped: bool,
    /// The failure is one of input or output.
    pub io: bool,
    /// The connection was refused.
    pub refused: bool,
    /// What is said of it.
    pub text: String,
}

/// What went wrong.
#[derive(Debug)]
pub enum CacheError {
    /// The server cannot be reached.
    Connect {
        /// The server, without the password.
        endpoint: String,
        /// What Redis says.
        source: RedisFault,
    },
    /// A command failed.
    Command {
        /// The command.
        command: &'static str,
        /// What Redis says.
        source: RedisFault,
    },
    /// The settings make no sense.
    InvalidConfig(String),
}

/// A failure after which the connection is to be opened anew.
pub open spec fn is_lost(fault: RedisFault) -> bool {
    fault.dropped || fault.io || fault.refused
}

/// Tells whether the connection is to be opened anew after a failure.
pub fn is_disconnect(fault: &RedisFault) -> (r: bool)
    ensures
        r == is_lost(*fault),
{
    fault.dropped || fault.io || fault.refused
}

impl CacheError {
    /// A command failed.
    pub fn command(command: &'static str, source: RedisFault) -> (r: Self)
        ensures
            r == (CacheError::Command { command, source }),
    {
        CacheError::Command { command, source }
    }

    /// True if it is the connection that failed rather than the command.
    pub fn is_connection_issue(&self) -> (r: bool)
        ensures
            r == (match *self {
                CacheError::Connect { .. } => true,
                CacheError::Command { source, .. } => is_lost(source),
                CacheError::InvalidConfig(_) => false,
            }),
    {
        match self {
            CacheError::Connect { .. } => true,
            CacheError::Command { source, .. } => is_disconnect(source),
            CacheError::InvalidConfig(_) => false,
        }
    }
}

} // verus!
