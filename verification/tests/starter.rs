//! How the daemon ends.

use perses_mother::starter::{lowers_flag, outcome, Ending, Exit};

#[test]
fn the_daemon_fails_only_where_no_module_survived() {
    assert_eq!(outcome(&[]), Exit::Nothing);
    assert_eq!(outcome(&[Ending::Failed, Ending::Panicked, Ending::Unborn]), Exit::Failure);
    assert_eq!(outcome(&[Ending::Failed, Ending::Finished]), Exit::Success);
}

#[test]
fn a_panic_leaves_the_flag_to_be_lowered() {
    assert!(lowers_flag(Ending::Panicked));
    assert!(!lowers_flag(Ending::Finished));
    assert!(!lowers_flag(Ending::Failed));
}
