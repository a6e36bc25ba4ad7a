//! What can go wrong with a WireGuard server.

use vstd::prelude::*;

use crate::fault::IoFault;

verus! {

/// What went wrong.
#[derive(Debug)]
pub enum WgError {
    /// A file or a program could not be used.
    Io {
        /// The file or the program.
        path: String,
        /// What the system says.
        source: IoFault,
    },
    /// A program is not installed.
    MissingBinary(&'static str),
    /// A program failed.
    CommandFailed {
        /// The command.
        cmd: String,
        /// Its exit code, -1 where it has none.
        code: i32,
        /// What it wrote on its error output.
        stderr: String,
    },
    /// A text is no key.
    InvalidKey(String),
    /// There is no configuration at this path yet.
    NotProvisioned(String),
    /// There is a configuration at this path already.
    AlreadyProvisioned(String),
    /// A configuration makes no sense.
    InvalidConfig(String),
    /// The rights for this are missing.
    PermissionDenied(String),
}

impl WgError {
    /// A failure on a file or a program.
    pub fn io(path: String, source: IoFault) -> (r: Self)
        ensures
            r == (WgError::Io { path, source }),
    {
        WgError::Io { path, source }
    }
}

/// What an error is, its texts taken by their characters.
pub enum Fault {
    /// A text is no key.
    Key(Seq<char>),
    /// A configuration makes no sense.
    Config(Seq<char>),
}

/// An error reports this fault.
pub open spec fn reports(e: WgError, fault: Fault) -> bool {
    match fault {
        Fault::Key(text) => e matches WgError::InvalidKey(t) && t@ == text,
        Fault::Config(text) => e matches WgError::InvalidConfig(t) && t@ == text,
    }
}

} // verus!
