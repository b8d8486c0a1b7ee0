//! The command line of `stack`: what can be asked, and how it ends.

use vstd::prelude::*;

use crate::domain::error::{ExitCode, StackError};
use crate::ops::walk::Scope;
use crate::store::{RepoIdentity, StorePaths};
use crate::text;

pub mod migrate;
pub mod pool;

verus! {

/// What was asked of `stack`.
#[derive(Debug)]
pub struct Cli {
    pub command: Cmd,
}

#[derive(Debug)]
#[allow(inconsistent_fields)]
pub enum Cmd {
    /// Import a `.git/gh-stack` file into the central store.
    Migrate { repo: Option<String>, force: bool },
    /// Print the resolved repo identity and the path of its store directory.
    Where { repo: Option<String> },
    /// List every stack tracked for this repository.
    List { json: bool, refresh: bool },
    /// Show the current stack.
    View { json: bool, refresh: bool },
    /// Move toward the top of the stack (away from trunk).
    Up { count: usize },
    /// Move toward the bottom of the stack (closer to trunk).
    Down { count: usize },
    /// Jump to the top of the stack.
    Top,
    /// Jump to the bottom of the stack.
    Bottom,
    /// Check out a branch belonging to a locally-tracked stack, or a PR.
    Checkout { target: String },
    /// Interactive branch picker for the current stack.
    Switch,
    /// Initialise a new stack.
    Init {
        base: Option<String>,
        prefix: Option<String>,
        adopt: bool,
        worktree: Option<String>,
        no_worktree: bool,
        branches: Vec<String>,
    },
    /// Add a new branch on top of the current stack.
    Add { all: bool, update: bool, message: Option<String>, branch: String },
    /// Stop tracking the stack containing `branch` and remove its worktrees.
    Remove { branch: String, force: bool },
    /// Remove a single branch from its stack, re-parenting the ones above it.
    Drop { branch: Option<String> },
    /// Drop fully-merged stacks and stale worktree bookkeeping.
    Prune { dry_run: bool, no_refresh: bool, force: bool },
    /// Push all active branches in the current stack.
    Push { remote: String },
    /// Cascade rebase the current stack onto trunk.
    Rebase {
        upstack: bool,
        downstack: bool,
        cont: bool,
        abort: bool,
        remote: String,
        no_refresh: bool,
    },
    /// Fetch, fast-forward trunk, cascade rebase, push.
    Sync { remote: String, no_refresh: bool },
    /// Push branches and create or refresh pull requests.
    Submit { auto: bool, draft: bool, remote: String, no_refresh: bool },
}

/// Which part of the stack a rebase covers: what its flags say, or all of it.
pub fn scope_of(upstack: bool, downstack: bool) -> (r: Scope)
    ensures
        r == (if upstack {
            Scope::Upstack
        } else if downstack {
            Scope::Downstack
        } else {
            Scope::Full
        }),
{
    if upstack {
        Scope::Upstack
    } else if downstack {
        Scope::Downstack
    } else {
        Scope::Full
    }
}

/// How the program ends: the line for the user, where something failed, and
/// the exit code.
pub fn ending(result: &Result<(), StackError>) -> (r: (Option<String>, u8))
    ensures
        match *result {
            Ok(()) => r.0 is None && r.1 == 0,
            Err(e) => text::opt_view(r.0) == Some("✗ "@ + e@.message()) && r.1
                == e@.exit_code().number() && r.1 != 0,
        },
{
    match result {
        Ok(()) => (None, ExitCode::Success.code()),
        Err(e) => {
            let line = text::cat("✗ ", e.message().as_str());
            (Some(line), e.exit_code().code())
        },
    }
}

/// What `stack where` prints.
pub fn where_lines(identity: &RepoIdentity, paths: &StorePaths) -> (r: Vec<String>)
    ensures
        text::views(r@) == seq![
            "repository = "@ + identity@.repository,
            "slug       = "@ + identity@.slug,
            "store      = "@ + paths.dir@,
            "stacks.json= "@ + crate::paths::joined(paths.dir@, "stacks.json"@),
        ],
{
    let mut out: Vec<String> = Vec::new();
    out.push(text::cat("repository = ", identity.repository.as_str()));
    out.push(text::cat("slug       = ", identity.slug.as_str()));
    out.push(text::cat("store      = ", paths.dir.as_str()));
    out.push(text::cat("stacks.json= ", paths.stacks_json().as_str()));
    assert(text::views(out@) =~= seq![
        "repository = "@ + identity@.repository,
        "slug       = "@ + identity@.slug,
        "store      = "@ + paths.dir@,
        "stacks.json= "@ + crate::paths::joined(paths.dir@, "stacks.json"@),
    ]);
    out
}

} // verus!
