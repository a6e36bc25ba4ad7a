//! What becomes of the daemon when its modules end.
//!
//! A module that fails does not end the others.

use vstd::prelude::*;

verus! {

/// How a module ended.
#[derive(Debug, Clone, Copy, PartialEq, Eq, Structural)]
pub enum Ending {
    /// Its thread could not be made.
    Unborn,
    /// It ended well.
    Finished,
    /// It stopped with an error.
    Failed,
    /// It panicked.
    Panicked,
}

/// How the daemon ends.
#[derive(Debug, Clone, Copy, PartialEq, Eq, Structural)]
pub enum Exit {
    /// Some module ended well.
    Success,
    /// There was no module.
    Nothing,
    /// Every module failed.
    Failure,
}

/// Some module ended well.
pub open spec fn some_finished(endings: Seq<Ending>) -> bool {
    exists|i: int| 0 <= i < endings.len() && #[trigger] endings[i] == Ending::Finished
}

/// How the daemon ends, from how its modules did.
pub open spec fn exit_of(endings: Seq<Ending>) -> Exit {
    if endings.len() == 0 {
        Exit::Nothing
    } else if some_finished(endings) {
        Exit::Success
    } else {
        Exit::Failure
    }
}

/// How the daemon ends, from how its modules did: it fails only where none
/// survived.
pub fn outcome(endings: &[Ending]) -> (r: Exit)
    ensures
        r == exit_of(endings@),
{
    if endings.len() == 0 {
        return Exit::Nothing;
    }
    let mut i: usize = 0;
    while i < endings.len()
        invariant
            i <= endings@.len(),
            forall|j: int| 0 <= j < i ==> #[trigger] endings@[j] != Ending::Finished,
        decreases endings@.len() - i,
    {
        if endings[i] == Ending::Finished {
            return Exit::Success;
        }
        i = i + 1;
    }
    Exit::Failure
}

/// Tells whether the health flag of a module has to be lowered for it: a panic
/// skips what the module does in ending.
pub fn lowers_flag(ending: Ending) -> (r: bool)
    ensures
        r == (ending == Ending::Panicked),
{
    ending == Ending::Panicked
}

// ---------------------------------------------------------------------------
// Laws
// ---------------------------------------------------------------------------

/// One module that ended well is enough, wherever it stands and however the
/// others ended. Where none did, the daemon fails; without modules there is
/// nothing to end.
pub proof fn law_one_survivor_is_enough(before: Seq<Ending>, after: Seq<Ending>)
    ensures
        exit_of(before + seq![Ending::Finished] + after) == Exit::Success,
        before.len() > 0 && (forall|i: int|
            0 <= i < before.len() ==> (#[trigger] before[i] == Ending::Unborn || before[i]
                == Ending::Failed || before[i] == Ending::Panicked)) ==> exit_of(before)
            == Exit::Failure,
        exit_of(Seq::empty()) == Exit::Nothing,
{
    let all = before + seq![Ending::Finished] + after;
    assert(all[before.len() as int] == Ending::Finished);
    assert(some_finished(all));
}

} // verus!
