//! What is asked of git, and what its answers mean.
//!
//! `Git` says which arguments the `git` binary is run with, and the functions
//! around it read what the binary printed. `GitOps` is the port that the
//! operations take; running the binary is the caller's part.

use vstd::prelude::*;

use crate::domain::error::{Fault, StackError};
use crate::paths;
use crate::text;

pub mod fake;
pub mod output;

pub use output::canonicalise_github_url;

verus! {

/// One commit, as `submit` reads it.
#[derive(Debug)]
pub struct CommitSummary {
    pub subject: String,
    pub body: String,
}

#[verifier::ext_equal]
pub struct CommitView {
    pub subject: Seq<char>,
    pub body: Seq<char>,
}

impl View for CommitSummary {
    type V = CommitView;

    open spec fn view(&self) -> CommitView {
        CommitView { subject: self.subject@, body: self.body@ }
    }
}

impl Clone for CommitSummary {
    fn clone(&self) -> (r: Self)
        ensures
            r == *self,
    {
        CommitSummary { subject: self.subject.clone(), body: self.body.clone() }
    }
}

/// The models of a list of commits.
pub open spec fn commit_views(list: Seq<CommitSummary>) -> Seq<CommitView> {
    list.map_values(|c: CommitSummary| c@)
}

/// A question put to git, with the answer that came back.
#[allow(inconsistent_fields)]
pub enum GitEvent {
    CurrentBranch { reply: Result<Option<String>, StackError> },
    RevParse { rev: Seq<char>, reply: Result<String, StackError> },
    IsAncestor { ancestor: Seq<char>, descendant: Seq<char>, reply: Result<bool, StackError> },
    Push { remote: Seq<char>, branches: Seq<Seq<char>>, reply: Result<(), StackError> },
    Commits { base: Seq<char>, branch: Seq<char>, reply: Result<Vec<CommitSummary>, StackError> },
    BranchExists { name: Seq<char>, reply: Result<bool, StackError> },
    TrunkBranch { reply: Result<String, StackError> },
    RebaseOnto {
        new_base: Seq<char>,
        old_base: Seq<char>,
        branch: Seq<char>,
        reply: Result<RebaseOutcome, StackError>,
    },
}

/// What a rebase that went through reports.
#[derive(Debug, Clone, Copy, PartialEq, Eq, Structural)]
pub struct RebaseOutcome {
    /// Conflicts that git resolved as they were resolved before.
    pub rerere_replays: usize,
}

/// Everything the operations need from git. `history` is what was asked so
/// far, and answered; each call adds itself at the end. `RecordedGit` keeps it
/// for a backend that promises nothing.
pub trait GitOps {
    spec fn history(&self) -> Seq<GitEvent>;

    /// Name of the checked-out branch, or `None` for a detached head.
    fn current_branch(&mut self) -> (r: Result<Option<String>, StackError>)
        ensures
            final(self).history() == old(self).history().push(
                (GitEvent::CurrentBranch { reply: r }),
            ),
    ;

    /// The commit that a revision stands for.
    fn rev_parse(&mut self, rev: &str) -> (r: Result<String, StackError>)
        ensures
            final(self).history() == old(self).history().push(
                (GitEvent::RevParse { rev: rev@, reply: r }),
            ),
    ;

    /// Whether one commit is an ancestor of another.
    fn is_ancestor(&mut self, ancestor: &str, descendant: &str) -> (r: Result<bool, StackError>)
        ensures
            final(self).history() == old(self).history().push(
                (GitEvent::IsAncestor { ancestor: ancestor@, descendant: descendant@, reply: r }),
            ),
    ;

    /// Push the branches, all or none.
    fn push_atomic(&mut self, remote: &str, branches: &[String]) -> (r: Result<(), StackError>)
        ensures
            final(self).history() == old(self).history().push(
                (GitEvent::Push { remote: remote@, branches: text::views(branches@), reply: r }),
            ),
    ;

    /// The commits on `branch` that are not in `base`, newest first.
    fn commits_between(&mut self, base: &str, branch: &str) -> (r: Result<
        Vec<CommitSummary>,
        StackError,
    >)
        ensures
            final(self).history() == old(self).history().push(
                (GitEvent::Commits { base: base@, branch: branch@, reply: r }),
            ),
    ;

    /// Whether there is a local branch of this name.
    fn branch_exists(&mut self, name: &str) -> (r: Result<bool, StackError>)
        ensures
            final(self).history() == old(self).history().push(
                (GitEvent::BranchExists { name: name@, reply: r }),
            ),
    ;

    /// Name of the repository's default branch.
    fn trunk_branch(&mut self) -> (r: Result<String, StackError>)
        ensures
            final(self).history() == old(self).history().push(
                (GitEvent::TrunkBranch { reply: r }),
            ),
    ;

    /// Replay the commits of `branch` since `old_base` onto `new_base`. A
    /// conflict is the error `RebaseConflict`, and leaves the rebase to be
    /// resolved.
    fn rebase_onto(&mut self, new_base: &str, old_base: &str, branch: &str) -> (r: Result<
        RebaseOutcome,
        StackError,
    >)
        ensures
            final(self).history() == old(self).history().push(
                (GitEvent::RebaseOnto {
                    new_base: new_base@,
                    old_base: old_base@,
                    branch: branch@,
                    reply: r,
                }),
            ),
    ;
}

/// What carries out the calls of the port. Nothing is promised of the answers.
pub trait GitBackend {
    fn current_branch(&mut self) -> Result<Option<String>, StackError>;

    fn rev_parse(&mut self, rev: &str) -> Result<String, StackError>;

    fn is_ancestor(&mut self, ancestor: &str, descendant: &str) -> Result<bool, StackError>;

    fn push_atomic(&mut self, remote: &str, branches: &[String]) -> Result<(), StackError>;

    fn commits_between(&mut self, base: &str, branch: &str) -> Result<
        Vec<CommitSummary>,
        StackError,
    >;

    fn branch_exists(&mut self, name: &str) -> Result<bool, StackError>;

    fn trunk_branch(&mut self) -> Result<String, StackError>;

    fn rebase_onto(&mut self, new_base: &str, old_base: &str, branch: &str) -> Result<
        RebaseOutcome,
        StackError,
    >;
}

/// A backend together with the history of what it was asked. Whatever it
/// answers, this is a port that keeps its promises.
pub struct RecordedGit<B> {
    pub backend: B,
    pub history: Ghost<Seq<GitEvent>>,
}

impl<B: GitBackend> RecordedGit<B> {
    pub fn new(backend: B) -> (r: Self)
        ensures
            r.backend == backend,
            r.history() == Seq::<GitEvent>::empty(),
    {
        RecordedGit { backend, history: Ghost(Seq::empty()) }
    }
}

impl<B: GitBackend> GitOps for RecordedGit<B> {
    open spec fn history(&self) -> Seq<GitEvent> {
        self.history@
    }

    fn current_branch(&mut self) -> (r: Result<Option<String>, StackError>) {
        let r = self.backend.current_branch();
        self.history = Ghost(self.history@.push(GitEvent::CurrentBranch { reply: r }));
        r
    }

    fn rev_parse(&mut self, rev: &str) -> (r: Result<String, StackError>) {
        let r = self.backend.rev_parse(rev);
        self.history = Ghost(self.history@.push(GitEvent::RevParse { rev: rev@, reply: r }));
        r
    }

    fn is_ancestor(&mut self, ancestor: &str, descendant: &str) -> (r: Result<bool, StackError>) {
        let r = self.backend.is_ancestor(ancestor, descendant);
        self.history = Ghost(
            self.history@.push(
                GitEvent::IsAncestor { ancestor: ancestor@, descendant: descendant@, reply: r },
            ),
        );
        r
    }

    fn push_atomic(&mut self, remote: &str, branches: &[String]) -> (r: Result<(), StackError>) {
        let r = self.backend.push_atomic(remote, branches);
        self.history = Ghost(
            self.history@.push(
                GitEvent::Push { remote: remote@, branches: text::views(branches@), reply: r },
            ),
        );
        r
    }

    fn commits_between(&mut self, base: &str, branch: &str) -> (r: Result<
        Vec<CommitSummary>,
        StackError,
    >) {
        let r = self.backend.commits_between(base, branch);
        self.history = Ghost(
            self.history@.push(GitEvent::Commits { base: base@, branch: branch@, reply: r }),
        );
        r
    }

    fn branch_exists(&mut self, name: &str) -> (r: Result<bool, StackError>) {
        let r = self.backend.branch_exists(name);
        self.history = Ghost(self.history@.push(GitEvent::BranchExists { name: name@, reply: r }));
        r
    }

    fn trunk_branch(&mut self) -> (r: Result<String, StackError>) {
        let r = self.backend.trunk_branch();
        self.history = Ghost(self.history@.push(GitEvent::TrunkBranch { reply: r }));
        r
    }

    fn rebase_onto(&mut self, new_base: &str, old_base: &str, branch: &str) -> (r: Result<
        RebaseOutcome,
        StackError,
    >) {
        let r = self.backend.rebase_onto(new_base, old_base, branch);
        self.history = Ghost(
            self.history@.push(
                GitEvent::RebaseOnto {
                    new_base: new_base@,
                    old_base: old_base@,
                    branch: branch@,
                    reply: r,
                },
            ),
        );
        r
    }
}

/// The command lines that work on one checkout.
pub struct Git {
    cwd: String,
}

/// Arguments that run a git command in a directory.
pub open spec fn command_in(dir: Seq<char>, args: Seq<Seq<char>>) -> Seq<Seq<char>> {
    seq!["-C"@, dir] + args
}

fn command_args(dir: &str, args: &[&str]) -> (r: Vec<String>)
    ensures
        text::views(r@) == command_in(dir@, text::str_views(args@)),
{
    let mut out: Vec<String> = Vec::new();
    out.push("-C".to_string());
    out.push(dir.to_string());
    let mut rest = text::own_all(args);
    let ghost head = out@;
    let ghost tail = rest@;
    out.append(&mut rest);
    assert(text::views(out@) =~= text::views(head) + text::views(tail));
    assert(text::views(head) =~= seq!["-C"@, dir@]);
    out
}

impl Git {
    /// The directory that commands run in.
    pub closed spec fn dir(self) -> Seq<char> {
        self.cwd@
    }

    /// The checkout around `start`: `toplevel` is what
    /// `git rev-parse --show-toplevel` printed, or `None` where it failed.
    pub fn discover(start: &str, toplevel: Option<&str>) -> (r: Result<Self, StackError>)
        ensures
            match toplevel {
                Some(out) => r matches Ok(git) && git.dir() == text::trimmed(out@),
                None => r matches Err(e) && e@ == Fault::Other(
                    "not a git repository (or any of the parent directories): "@ + start@,
                ),
            },
    {
        match toplevel {
            Some(out) => Ok(Git { cwd: text::trim(out) }),
            None => Err(
                StackError::Other(
                    text::cat("not a git repository (or any of the parent directories): ", start),
                ),
            ),
        }
    }

    /// The directory that commands run in.
    pub fn cwd(&self) -> (r: &str)
        ensures
            r@ == self.dir(),
    {
        self.cwd.as_str()
    }

    /// Ask for the git directory that all worktrees of one clone share.
    pub fn common_dir(&self) -> (r: Vec<String>)
        ensures
            text::views(r@) == command_in(
                self.dir(),
                seq!["rev-parse"@, "--path-format=absolute"@, "--git-common-dir"@],
            ),
    {
        self.args(&["rev-parse", "--path-format=absolute", "--git-common-dir"])
    }

    /// Ask for the URL of the `origin` remote.
    pub fn origin_url(&self) -> (r: Vec<String>)
        ensures
            text::views(r@) == command_in(
                self.dir(),
                seq!["remote"@, "get-url"@, "origin"@],
            ),
    {
        self.args(&["remote", "get-url", "origin"])
    }

    /// Ask for the checked-out branch.
    pub fn current_branch(&self) -> (r: Vec<String>)
        ensures
            text::views(r@) == command_in(
                self.dir(),
                seq!["symbolic-ref"@, "--quiet"@, "--short"@, "HEAD"@],
            ),
    {
        self.args(&["symbolic-ref", "--quiet", "--short", "HEAD"])
    }

    /// Resolve a revision.
    pub fn rev_parse(&self, rev: &str) -> (r: Vec<String>)
        ensures
            text::views(r@) == command_in(self.dir(), seq!["rev-parse"@, rev@]),
    {
        self.args(&["rev-parse", rev])
    }

    /// Ask whether one commit is an ancestor of another.
    pub fn is_ancestor(&self, ancestor: &str, descendant: &str) -> (r: Vec<String>)
        ensures
            text::views(r@) == command_in(
                self.dir(),
                seq!["merge-base"@, "--is-ancestor"@, ancestor@, descendant@],
            ),
    {
        self.args(&["merge-base", "--is-ancestor", ancestor, descendant])
    }

    /// Ask whether a local branch exists.
    pub fn branch_exists(&self, name: &str) -> (r: Vec<String>)
        ensures
            text::views(r@) == command_in(
                self.dir(),
                seq!["show-ref"@, "--verify"@, "--quiet"@, "refs/heads/"@ + name@],
            ),
    {
        let reference = text::cat("refs/heads/", name);
        self.args(&["show-ref", "--verify", "--quiet", reference.as_str()])
    }

    /// Ask for the commits on `branch` that are not in `base`.
    pub fn commits_between(&self, base: &str, branch: &str) -> (r: Vec<String>)
        ensures
            text::views(r@) == command_in(
                self.dir(),
                seq!["log"@, "--format=%H%x00%B%x1e"@, base@ + ".."@ + branch@],
            ),
    {
        let range = text::cat3(base, "..", branch);
        self.args(&["log", "--format=%H%x00%B%x1e", range.as_str()])
    }

    /// Switch to a branch.
    pub fn checkout(&self, branch: &str) -> (r: Vec<String>)
        ensures
            text::views(r@) == command_in(self.dir(), seq!["checkout"@, branch@]),
    {
        self.args(&["checkout", branch])
    }

    /// Create `branch` at `start_point` and switch to it.
    pub fn create_branch(&self, branch: &str, start_point: &str) -> (r: Vec<String>)
        ensures
            text::views(r@) == command_in(
                self.dir(),
                seq!["checkout"@, "-b"@, branch@, start_point@],
            ),
    {
        self.args(&["checkout", "-b", branch, start_point])
    }

    /// Create `branch` at `start_point` without switching to it.
    pub fn create_branch_no_checkout(&self, branch: &str, start_point: &str) -> (r: Vec<String>)
        ensures
            text::views(r@) == command_in(self.dir(), seq!["branch"@, branch@, start_point@]),
    {
        self.args(&["branch", branch, start_point])
    }

    /// Switch to `branch` in the worktree at `at`.
    pub fn checkout_at(&self, at: &str, branch: &str) -> (r: Vec<String>)
        ensures
            text::views(r@) == command_in(at@, seq!["checkout"@, branch@]),
    {
        let args = ["checkout", branch];
        let r = command_args(at, &args);
        assert(text::str_views(args@) =~= seq!["checkout"@, branch@]);
        r
    }

    /// List the worktrees of this clone.
    pub fn worktrees(&self) -> (r: Vec<String>)
        ensures
            text::views(r@) == command_in(
                self.dir(),
                seq!["worktree"@, "list"@, "--porcelain"@],
            ),
    {
        self.args(&["worktree", "list", "--porcelain"])
    }

    /// Forget worktrees whose directory is gone.
    pub fn worktree_prune(&self) -> (r: Vec<String>)
        ensures
            text::views(r@) == command_in(self.dir(), seq!["worktree"@, "prune"@, "-v"@]),
    {
        self.args(&["worktree", "prune", "-v"])
    }

    /// Report what `worktree_prune` would forget.
    pub fn worktree_prune_dry_run(&self) -> (r: Vec<String>)
        ensures
            text::views(r@) == command_in(
                self.dir(),
                seq!["worktree"@, "prune"@, "-v"@, "--dry-run"@],
            ),
    {
        self.args(&["worktree", "prune", "-v", "--dry-run"])
    }

    /// Create a worktree at `path` for an existing branch.
    pub fn worktree_add(&self, path: &str, branch: &str) -> (r: Vec<String>)
        ensures
            text::views(r@) == command_in(
                self.dir(),
                seq!["worktree"@, "add"@, path@, branch@],
            ),
    {
        self.args(&["worktree", "add", path, branch])
    }

    /// Remove the worktree at `path`.
    pub fn worktree_remove(&self, path: &str, force: bool) -> (r: Vec<String>)
        ensures
            text::views(r@) == command_in(
                self.dir(),
                if force {
                    seq!["worktree"@, "remove"@, "--force"@, path@]
                } else {
                    seq!["worktree"@, "remove"@, path@]
                },
            ),
    {
        if force {
            self.args(&["worktree", "remove", "--force", path])
        } else {
            self.args(&["worktree", "remove", path])
        }
    }

    /// Ask what is uncommitted in the worktree at `path`.
    pub fn worktree_status(&self, path: &str) -> (r: Vec<String>)
        ensures
            text::views(r@) == command_in(path@, seq!["status"@, "--porcelain"@]),
    {
        let args = ["status", "--porcelain"];
        let r = command_args(path, &args);
        assert(text::str_views(args@) =~= seq!["status"@, "--porcelain"@]);
        r
    }

    pub fn enable_rerere(&self) -> (r: Vec<String>)
        ensures
            text::views(r@) == command_in(
                self.dir(),
                seq!["config"@, "rerere.enabled"@, "true"@],
            ),
    {
        self.args(&["config", "rerere.enabled", "true"])
    }

    /// Stage everything.
    pub fn add_all(&self) -> (r: Vec<String>)
        ensures
            text::views(r@) == command_in(self.dir(), seq!["add"@, "-A"@]),
    {
        self.args(&["add", "-A"])
    }

    /// Stage changes to tracked files.
    pub fn add_tracked(&self) -> (r: Vec<String>)
        ensures
            text::views(r@) == command_in(self.dir(), seq!["add"@, "-u"@]),
    {
        self.args(&["add", "-u"])
    }

    pub fn commit(&self, message: &str) -> (r: Vec<String>)
        ensures
            text::views(r@) == command_in(
                self.dir(),
                seq!["commit"@, "-q"@, "-m"@, message@],
            ),
    {
        self.args(&["commit", "-q", "-m", message])
    }

    /// Count the commits of a branch beyond its start point. Together with the
    /// status of the worktree, `output::read_has_commits` reads the answer.
    pub fn has_commits(&self, branch: &str, start_point: &str) -> (r: Vec<String>)
        ensures
            text::views(r@) == command_in(
                self.dir(),
                seq!["rev-list"@, "--count"@, start_point@ + ".."@ + branch@],
            ),
    {
        let range = text::cat3(start_point, "..", branch);
        self.args(&["rev-list", "--count", range.as_str()])
    }

    /// Ask which branch the remote's head names.
    pub fn trunk_branch(&self) -> (r: Vec<String>)
        ensures
            text::views(r@) == command_in(
                self.dir(),
                seq!["symbolic-ref"@, "--short"@, "refs/remotes/origin/HEAD"@],
            ),
    {
        self.args(&["symbolic-ref", "--short", "refs/remotes/origin/HEAD"])
    }

    pub fn fetch(&self, remote: &str) -> (r: Vec<String>)
        ensures
            text::views(r@) == command_in(self.dir(), seq!["fetch"@, "--prune"@, remote@]),
    {
        self.args(&["fetch", "--prune", remote])
    }

    /// Move a branch to a commit without checking it out.
    pub fn fast_forward(&self, branch: &str, sha: &str) -> (r: Vec<String>)
        ensures
            text::views(r@) == command_in(
                self.dir(),
                seq!["update-ref"@, "refs/heads/"@ + branch@, sha@],
            ),
    {
        let reference = text::cat("refs/heads/", branch);
        self.args(&["update-ref", reference.as_str(), sha])
    }

    /// Replay the commits of `branch` since `old_base` onto `new_base`.
    pub fn rebase_onto(&self, new_base: &str, old_base: &str, branch: &str) -> (r: Vec<String>)
        ensures
            text::views(r@) == command_in(
                self.dir(),
                seq!["rebase"@, "--onto"@, new_base@, old_base@, branch@],
            ),
    {
        self.args(&["rebase", "--onto", new_base, old_base, branch])
    }

    pub fn rebase_continue(&self) -> (r: Vec<String>)
        ensures
            text::views(r@) == command_in(self.dir(), seq!["rebase"@, "--continue"@]),
    {
        self.args(&["rebase", "--continue"])
    }

    pub fn rebase_abort(&self) -> (r: Vec<String>)
        ensures
            text::views(r@) == command_in(self.dir(), seq!["rebase"@, "--abort"@]),
    {
        self.args(&["rebase", "--abort"])
    }

    /// Ask for the git directory of this checkout.
    pub fn git_dir(&self) -> (r: Vec<String>)
        ensures
            text::views(r@) == command_in(self.dir(), seq!["rev-parse"@, "--git-dir"@]),
    {
        self.args(&["rev-parse", "--git-dir"])
    }

    /// Where a rebase leaves its marks: one of the two exists exactly while a
    /// rebase is in progress. `git_dir` is what `git_dir` printed, or `None`
    /// where it failed, and then nothing is in progress.
    pub fn rebase_in_progress(&self, git_dir: Option<&str>) -> (r: Option<(String, String)>)
        ensures
            match git_dir {
                Some(out) => r matches Some((merge, apply)) && {
                    let dir = paths::joined(self.dir(), text::trimmed(out@));
                    &&& merge@ == paths::joined(dir, "rebase-merge"@)
                    &&& apply@ == paths::joined(dir, "rebase-apply"@)
                },
                None => r is None,
            },
    {
        match git_dir {
            Some(out) => {
                let dir = paths::join(self.cwd.as_str(), text::trim(out).as_str());
                Some(
                    (
                        paths::join(dir.as_str(), "rebase-merge"),
                        paths::join(dir.as_str(), "rebase-apply"),
                    ),
                )
            },
            None => None,
        }
    }

    /// Push the branches in one atomic, lease-guarded push; nothing to run
    /// where there is no branch.
    pub fn push_atomic(&self, remote: &str, branches: &[String]) -> (r: Option<Vec<String>>)
        ensures
            if branches@.len() == 0 {
                r is None
            } else {
                r matches Some(args) && text::views(args@) == command_in(
                    self.dir(),
                    seq!["push"@, "--force-with-lease"@, "--atomic"@, remote@] + text::views(
                        branches@,
                    ),
                )
            },
    {
        if branches.len() == 0 {
            return None;
        }
        let mut out = self.args(&["push", "--force-with-lease", "--atomic", remote]);
        let ghost head = text::views(out@);
        let mut i: usize = 0;
        assert(text::views(out@) =~= head + text::views(branches@).take(0));
        while i < branches.len()
            invariant
                i <= branches.len(),
                text::views(out@) == head + text::views(branches@).take(i as int),
            decreases branches.len() - i,
        {
            let ghost before = text::views(out@);
            out.push(branches[i].clone());
            assert(text::views(out@) =~= before.push(branches@[i as int]@));
            assert(text::views(branches@).take(i + 1) =~= text::views(branches@).take(
                i as int,
            ).push(branches@[i as int]@));
            assert(text::views(out@) =~= head + text::views(branches@).take(i + 1));
            i = i + 1;
        }
        assert(text::views(branches@).take(branches.len() as int) =~= text::views(branches@));
        assert(text::views(out@) =~= command_in(
            self.dir(),
            seq!["push"@, "--force-with-lease"@, "--atomic"@, remote@] + text::views(branches@),
        ));
        Some(out)
    }

    fn args(&self, args: &[&str]) -> (r: Vec<String>)
        ensures
            text::views(r@) == command_in(self.dir(), text::str_views(args@)),
    {
        command_args(self.cwd.as_str(), args)
    }
}

} // verus!
