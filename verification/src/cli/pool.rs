//! The command line of `pool`.

use vstd::prelude::*;

verus! {

/// What was asked of `pool`.
#[derive(Debug)]
pub struct Cli {
    pub command: Cmd,
}

#[derive(Debug)]
#[allow(inconsistent_fields)]
pub enum Cmd {
    /// Make a branch off a base, or take one over, and add it to a pool.
    Init {
        pool: Option<String>,
        base: Option<String>,
        adopt: bool,
        worktree: Option<String>,
        no_worktree: bool,
        branch: String,
    },
    /// Add existing local branches to a pool.
    Add { pool: Option<String>, base: Option<String>, branches: Vec<String> },
    /// Adopt every open pull request of yours whose branch exists locally.
    Adopt { pool: Option<String> },
    /// Remove a branch from its pool.
    Remove { branch: Option<String> },
    /// Drop branches whose pull requests are merged.
    Prune { pool: Option<String>, dry_run: bool, no_refresh: bool },
    /// List all pools and their branches.
    List { refresh: bool, json: bool },
    /// Refresh a pool and print what changed.
    Refresh { pool: Option<String> },
    /// Rebase every active branch of a pool onto its base.
    Rebase {
        pool: Option<String>,
        remote: String,
        no_refresh: bool,
        cont: bool,
        abort: bool,
    },
    /// Push a pool's branches and open their pull requests.
    Submit { pool: Option<String>, draft: bool, remote: String, no_refresh: bool },
}

} // verus!
