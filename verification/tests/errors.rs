//! What errors say, how the program exits, and how text is coloured.

use git_stack::domain::{ExitCode, StackError};
use git_stack::style;

#[test]
fn every_error_has_its_code_and_message() {
    let cases: Vec<(StackError, u8, &str)> = vec![
        (StackError::Other("x".into()), 1, "x"),
        (StackError::Io("no file".into()), 1, "no file"),
        (StackError::Json("bad".into()), 1, "bad"),
        (StackError::NotInStack, 2, "not in a stack"),
        (
            StackError::RebaseConflict,
            3,
            "rebase conflict; resolve and run `stack rebase --continue`",
        ),
        (StackError::GitHubApi("x".into()), 4, "github api error: x"),
        (StackError::InvalidArgs("x".into()), 5, "invalid argument: x"),
        (
            StackError::Disambiguation("b".into()),
            6,
            "branch `b` belongs to multiple stacks; check out a non-shared branch first",
        ),
        (
            StackError::RebaseInProgress,
            7,
            "rebase in progress; run `stack rebase --continue` or `stack rebase --abort`",
        ),
        (StackError::Locked, 8, "store is locked by another `stack` process; try again"),
    ];
    for (error, code, message) in cases {
        assert_eq!(error.exit_code().code(), code);
        assert_eq!(error.message(), message);
    }
    assert_eq!(ExitCode::Success.code(), 0);
}

#[test]
fn colour_is_off_unless_everything_allows_it() {
    assert!(style::use_color(false, false, true));
    assert!(!style::use_color(true, false, true));
    assert!(!style::use_color(false, true, true));
    assert!(!style::use_color(false, false, false));
}

#[test]
fn styles_wrap_text_in_escapes() {
    assert_eq!(style::accent("x", true), "\x1b[1;38;5;81mx\x1b[0m");
    assert_eq!(style::ok("x", true), "\x1b[38;5;108mx\x1b[0m");
    assert_eq!(style::warn("x", true), "\x1b[38;5;215mx\x1b[0m");
    assert_eq!(style::merged("x", true), "\x1b[38;5;246mx\x1b[0m");
    assert_eq!(style::dim("x", true), "\x1b[38;5;244mx\x1b[0m");
    assert_eq!(style::secondary("x", true), "\x1b[38;5;250mx\x1b[0m");
    assert_eq!(style::url("x", true), "\x1b[4;38;5;250mx\x1b[0m");
    assert_eq!(style::url_err("x", true), "\x1b[4;38;5;250mx\x1b[0m");
    assert_eq!(style::bold("x", true), "\x1b[1mx\x1b[0m");
    assert_eq!(style::sgr("x", "7", true), "\x1b[7mx\x1b[0m");
    assert_eq!(style::sgr_stderr("x", "7", false), "x");
    assert_eq!(style::accent("x", false), "x");
}
