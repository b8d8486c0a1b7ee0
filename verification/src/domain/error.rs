//! Errors and process exit codes.

use vstd::prelude::*;

use crate::text;

verus! {

/// Exit codes, as `gh stack` numbers them, so that scripts written against
/// `gh stack` keep working.
#[derive(Debug, Clone, Copy, PartialEq, Eq, Structural)]
pub enum ExitCode {
    Success,
    Generic,
    NotInStack,
    RebaseConflict,
    GitHubApi,
    InvalidArgs,
    Disambiguation,
    RebaseInProgress,
    Locked,
}

impl ExitCode {
    /// The number a process exits with.
    pub open spec fn number(self) -> u8 {
        match self {
            ExitCode::Success => 0,
            ExitCode::Generic => 1,
            ExitCode::NotInStack => 2,
            ExitCode::RebaseConflict => 3,
            ExitCode::GitHubApi => 4,
            ExitCode::InvalidArgs => 5,
            ExitCode::Disambiguation => 6,
            ExitCode::RebaseInProgress => 7,
            ExitCode::Locked => 8,
        }
    }

    /// The number a process exits with.
    pub fn code(self) -> (r: u8)
        ensures
            r == self.number(),
    {
        match self {
            ExitCode::Success => 0,
            ExitCode::Generic => 1,
            ExitCode::NotInStack => 2,
            ExitCode::RebaseConflict => 3,
            ExitCode::GitHubApi => 4,
            ExitCode::InvalidArgs => 5,
            ExitCode::Disambiguation => 6,
            ExitCode::RebaseInProgress => 7,
            ExitCode::Locked => 8,
        }
    }
}

/// Why an operation was refused or failed. `Io` and `Json` carry the message
/// of the underlying failure.
#[derive(Debug)]
pub enum StackError {
    NotInStack,
    Disambiguation(String),
    InvalidArgs(String),
    Locked,
    RebaseInProgress,
    RebaseConflict,
    GitHubApi(String),
    Other(String),
    Io(String),
    Json(String),
}

/// What a `StackError` says.
#[verifier::ext_equal]
pub enum Fault {
    NotInStack,
    Disambiguation(Seq<char>),
    InvalidArgs(Seq<char>),
    Locked,
    RebaseInProgress,
    RebaseConflict,
    GitHubApi(Seq<char>),
    Other(Seq<char>),
    Io(Seq<char>),
    Json(Seq<char>),
}

impl View for StackError {
    type V = Fault;

    open spec fn view(&self) -> Fault {
        match *self {
            StackError::NotInStack => Fault::NotInStack,
            StackError::Disambiguation(s) => Fault::Disambiguation(s@),
            StackError::InvalidArgs(s) => Fault::InvalidArgs(s@),
            StackError::Locked => Fault::Locked,
            StackError::RebaseInProgress => Fault::RebaseInProgress,
            StackError::RebaseConflict => Fault::RebaseConflict,
            StackError::GitHubApi(s) => Fault::GitHubApi(s@),
            StackError::Other(s) => Fault::Other(s@),
            StackError::Io(s) => Fault::Io(s@),
            StackError::Json(s) => Fault::Json(s@),
        }
    }
}

impl Fault {
    /// The exit code that goes with the error.
    pub open spec fn exit_code(self) -> ExitCode {
        match self {
            Fault::NotInStack => ExitCode::NotInStack,
            Fault::Disambiguation(_) => ExitCode::Disambiguation,
            Fault::InvalidArgs(_) => ExitCode::InvalidArgs,
            Fault::Locked => ExitCode::Locked,
            Fault::RebaseInProgress => ExitCode::RebaseInProgress,
            Fault::RebaseConflict => ExitCode::RebaseConflict,
            Fault::GitHubApi(_) => ExitCode::GitHubApi,
            Fault::Other(_) => ExitCode::Generic,
            Fault::Io(_) => ExitCode::Generic,
            Fault::Json(_) => ExitCode::Generic,
        }
    }

    /// The text shown to the user.
    pub open spec fn message(self) -> Seq<char> {
        match self {
            Fault::NotInStack => "not in a stack"@,
            Fault::Disambiguation(s) => "branch `"@ + s
                + "` belongs to multiple stacks; check out a non-shared branch first"@,
            Fault::InvalidArgs(s) => "invalid argument: "@ + s,
            Fault::Locked => "store is locked by another `stack` process; try again"@,
            Fault::RebaseInProgress =>
                "rebase in progress; run `stack rebase --continue` or `stack rebase --abort`"@,
            Fault::RebaseConflict => "rebase conflict; resolve and run `stack rebase --continue`"@,
            Fault::GitHubApi(s) => "github api error: "@ + s,
            Fault::Other(s) => s,
            Fault::Io(s) => s,
            Fault::Json(s) => s,
        }
    }
}

impl StackError {
    /// The exit code that goes with the error.
    pub fn exit_code(&self) -> (r: ExitCode)
        ensures
            r == self@.exit_code(),
    {
        match self {
            StackError::NotInStack => ExitCode::NotInStack,
            StackError::Disambiguation(_) => ExitCode::Disambiguation,
            StackError::InvalidArgs(_) => ExitCode::InvalidArgs,
            StackError::Locked => ExitCode::Locked,
            StackError::RebaseInProgress => ExitCode::RebaseInProgress,
            StackError::RebaseConflict => ExitCode::RebaseConflict,
            StackError::GitHubApi(_) => ExitCode::GitHubApi,
            _ => ExitCode::Generic,
        }
    }

    /// The text shown to the user.
    pub fn message(&self) -> (r: String)
        ensures
            r@ == self@.message(),
    {
        match self {
            StackError::NotInStack => "not in a stack".to_string(),
            StackError::Disambiguation(s) => text::cat3(
                "branch `",
                s.as_str(),
                "` belongs to multiple stacks; check out a non-shared branch first",
            ),
            StackError::InvalidArgs(s) => text::cat("invalid argument: ", s.as_str()),
            StackError::Locked =>
                "store is locked by another `stack` process; try again".to_string(),
            StackError::RebaseInProgress =>
                "rebase in progress; run `stack rebase --continue` or `stack rebase --abort`".to_string(),
            StackError::RebaseConflict =>
                "rebase conflict; resolve and run `stack rebase --continue`".to_string(),
            StackError::GitHubApi(s) => text::cat("github api error: ", s.as_str()),
            StackError::Other(s) => s.clone(),
            StackError::Io(s) => s.clone(),
            StackError::Json(s) => s.clone(),
        }
    }
}

impl Clone for StackError {
    fn clone(&self) -> (r: Self)
        ensures
            r == *self,
    {
        match self {
            StackError::NotInStack => StackError::NotInStack,
            StackError::Disambiguation(s) => StackError::Disambiguation(s.clone()),
            StackError::InvalidArgs(s) => StackError::InvalidArgs(s.clone()),
            StackError::Locked => StackError::Locked,
            StackError::RebaseInProgress => StackError::RebaseInProgress,
            StackError::RebaseConflict => StackError::RebaseConflict,
            StackError::GitHubApi(s) => StackError::GitHubApi(s.clone()),
            StackError::Other(s) => StackError::Other(s.clone()),
            StackError::Io(s) => StackError::Io(s.clone()),
            StackError::Json(s) => StackError::Json(s.clone()),
        }
    }
}

/// No two exit codes share a number.
pub proof fn law_exit_codes_are_distinct(a: ExitCode, b: ExitCode)
    ensures
        a.number() == b.number() ==> a == b,
{
}

/// No error is reported as success.
pub proof fn law_errors_exit_nonzero(e: Fault)
    ensures
        e.exit_code().number() != 0,
{
}

/// What an error is about stands in its message, and errors of one kind exit
/// alike.
pub proof fn law_message_tells_cause(s: Seq<char>, t: Seq<char>)
    ensures
        text::has_part(Fault::Disambiguation(s).message(), s),
        text::has_part(Fault::InvalidArgs(s).message(), s),
        text::has_part(Fault::GitHubApi(s).message(), s),
        Fault::Other(s).message() == s,
        Fault::Io(s).message() == s,
        Fault::Json(s).message() == s,
        Fault::Disambiguation(s).exit_code() == Fault::Disambiguation(t).exit_code(),
        Fault::InvalidArgs(s).exit_code() == Fault::InvalidArgs(t).exit_code(),
        Fault::GitHubApi(s).exit_code() == Fault::GitHubApi(t).exit_code(),
        Fault::Other(s).exit_code() == Fault::Io(t).exit_code(),
        Fault::Other(s).exit_code() == Fault::Json(t).exit_code(),
{
    text::lemma_part_whole(s);
    text::lemma_part_within(
        "branch `"@,
        s,
        "` belongs to multiple stacks; check out a non-shared branch first"@,
        s,
    );
    text::lemma_part_right("invalid argument: "@, s, s);
    text::lemma_part_right("github api error: "@, s, s);
}

} // verus!
