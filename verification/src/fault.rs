//! What the system says when something fails.

use vstd::prelude::*;

verus! {

/// The kinds of failure that are told apart.
#[derive(Debug, Clone, Copy, PartialEq, Eq, Structural)]
pub enum IoKind {
    /// There is no such file or program.
    NotFound,
    /// The rights are missing.
    PermissionDenied,
    /// The other side refuses the connection.
    ConnectionRefused,
    /// The call was interrupted before anything happened.
    Interrupted,
    /// The time allowed is over.
    TimedOut,
    /// The other end is gone.
    BrokenPipe,
    /// Anything else.
    Other,
}

/// A failure of a call to the system.
#[derive(Debug)]
pub struct IoFault {
    /// Its kind.
    pub kind: IoKind,
    /// What the system says of it.
    pub text: String,
}

} // verus!
