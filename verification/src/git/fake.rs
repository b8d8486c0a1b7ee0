//! An in-memory `GitOps`: records pushes, and answers from what was seeded.

use vstd::prelude::*;

use crate::domain::error::{Fault, StackError};
use crate::git::{commit_views, CommitSummary, CommitView, GitEvent, GitOps, RebaseOutcome};
use crate::text;

verus! {

/// One push, as it was asked for.
#[derive(Debug)]
pub struct PushCall {
    pub remote: String,
    pub branches: Vec<String>,
}

#[verifier::ext_equal]
pub struct PushView {
    pub remote: Seq<char>,
    pub branches: Seq<Seq<char>>,
}

impl View for PushCall {
    type V = PushView;

    open spec fn view(&self) -> PushView {
        PushView { remote: self.remote@, branches: text::views(self.branches@) }
    }
}

impl Clone for PushCall {
    fn clone(&self) -> (r: Self)
        ensures
            r@ == self@,
    {
        PushCall { remote: self.remote.clone(), branches: text::copy_list(&self.branches) }
    }
}

/// The models of a list of pushes.
pub open spec fn push_views(list: Seq<PushCall>) -> Seq<PushView> {
    list.map_values(|p: PushCall| p@)
}

struct SeededCommits {
    base: String,
    branch: String,
    commits: Vec<CommitSummary>,
}

struct SeededRev {
    rev: String,
    sha: String,
}

struct SeededPair {
    ancestor: String,
    descendant: String,
}

/// The fake. What is seeded last under a key is what counts.
pub struct FakeGit {
    current_branch: Option<String>,
    pushes: Vec<PushCall>,
    commits: Vec<SeededCommits>,
    revs: Vec<SeededRev>,
    ancestry: Vec<SeededPair>,
    conflicts: Vec<String>,
    history: Ghost<Seq<GitEvent>>,
}

/// What the fake knows.
#[verifier::ext_equal]
pub struct FakeGitView {
    pub current_branch: Option<Seq<char>>,
    pub pushes: Seq<PushView>,
    pub commits: Map<(Seq<char>, Seq<char>), Seq<CommitView>>,
    pub revs: Map<Seq<char>, Seq<char>>,
    pub ancestry: Set<(Seq<char>, Seq<char>)>,
    /// Branches whose rebase ends in a conflict.
    pub conflicts: Seq<Seq<char>>,
}

spec fn commit_table(list: Seq<SeededCommits>) -> Map<(Seq<char>, Seq<char>), Seq<CommitView>>
    decreases list.len(),
{
    if list.len() == 0 {
        Map::empty()
    } else {
        let e = list.last();
        commit_table(list.drop_last()).insert((e.base@, e.branch@), commit_views(e.commits@))
    }
}

spec fn rev_table(list: Seq<SeededRev>) -> Map<Seq<char>, Seq<char>>
    decreases list.len(),
{
    if list.len() == 0 {
        Map::empty()
    } else {
        rev_table(list.drop_last()).insert(list.last().rev@, list.last().sha@)
    }
}

spec fn pair_set(list: Seq<SeededPair>) -> Set<(Seq<char>, Seq<char>)>
    decreases list.len(),
{
    if list.len() == 0 {
        Set::empty()
    } else {
        pair_set(list.drop_last()).insert((list.last().ancestor@, list.last().descendant@))
    }
}

impl View for FakeGit {
    type V = FakeGitView;

    closed spec fn view(&self) -> FakeGitView {
        FakeGitView {
            current_branch: text::opt_view(self.current_branch),
            pushes: push_views(self.pushes@),
            commits: commit_table(self.commits@),
            revs: rev_table(self.revs@),
            ancestry: pair_set(self.ancestry@),
            conflicts: text::views(self.conflicts@),
        }
    }
}

impl FakeGit {
    /// A fake with the given branch checked out, and nothing else.
    pub fn new(current_branch: &str) -> (r: Self)
        ensures
            r@ == (FakeGitView {
                current_branch: Some(current_branch@),
                pushes: Seq::empty(),
                commits: Map::empty(),
                revs: Map::empty(),
                ancestry: Set::empty(),
                conflicts: Seq::empty(),
            }),
            r.history() == Seq::<GitEvent>::empty(),
    {
        let pushes: Vec<PushCall> = Vec::new();
        let conflicts: Vec<String> = Vec::new();
        assert(push_views(pushes@) =~= Seq::<PushView>::empty());
        assert(text::views(conflicts@) =~= Seq::<Seq<char>>::empty());
        FakeGit {
            current_branch: Some(current_branch.to_string()),
            pushes,
            commits: Vec::new(),
            revs: Vec::new(),
            ancestry: Vec::new(),
            conflicts,
            history: Ghost(Seq::empty()),
        }
    }

    /// Let `commits_between(base, branch)` answer with these commits.
    pub fn seed_commits(&mut self, base: &str, branch: &str, commits: Vec<CommitSummary>)
        ensures
            final(self)@ == (FakeGitView {
                commits: old(self)@.commits.insert((base@, branch@), commit_views(commits@)),
                ..old(self)@
            }),
            final(self).history() == old(self).history(),
    {
        let ghost before = self.commits@;
        self.commits.push(
            SeededCommits { base: base.to_string(), branch: branch.to_string(), commits },
        );
        assert(self.commits@.drop_last() =~= before);
    }

    /// Let `rev_parse(rev)` answer with this commit, and the branch of that
    /// name exist.
    pub fn seed_rev(&mut self, rev: &str, sha: &str)
        ensures
            final(self)@ == (FakeGitView {
                revs: old(self)@.revs.insert(rev@, sha@),
                ..old(self)@
            }),
            final(self).history() == old(self).history(),
    {
        let ghost before = self.revs@;
        self.revs.push(SeededRev { rev: rev.to_string(), sha: sha.to_string() });
        assert(self.revs@.drop_last() =~= before);
    }

    /// Let `is_ancestor(ancestor, descendant)` hold.
    pub fn seed_ancestor(&mut self, ancestor: &str, descendant: &str)
        ensures
            final(self)@ == (FakeGitView {
                ancestry: old(self)@.ancestry.insert((ancestor@, descendant@)),
                ..old(self)@
            }),
            final(self).history() == old(self).history(),
    {
        let ghost before = self.ancestry@;
        self.ancestry.push(
            SeededPair { ancestor: ancestor.to_string(), descendant: descendant.to_string() },
        );
        assert(self.ancestry@.drop_last() =~= before);
    }

    /// Let a rebase of this branch end in a conflict.
    pub fn seed_conflict(&mut self, branch: &str)
        ensures
            final(self)@ == (FakeGitView {
                conflicts: old(self)@.conflicts.push(branch@),
                ..old(self)@
            }),
            final(self).history() == old(self).history(),
    {
        let ghost before = text::views(self.conflicts@);
        self.conflicts.push(branch.to_string());
        assert(text::views(self.conflicts@) =~= before.push(branch@));
    }

    /// Every push so far.
    pub fn pushes(&self) -> (r: Vec<PushCall>)
        ensures
            push_views(r@) == self@.pushes,
    {
        let mut out: Vec<PushCall> = Vec::new();
        let mut i: usize = 0;
        while i < self.pushes.len()
            invariant
                i <= self.pushes.len(),
                push_views(out@) == push_views(self.pushes@).take(i as int),
            decreases self.pushes.len() - i,
        {
            let ghost before = push_views(out@);
            out.push(self.pushes[i].clone());
            assert(push_views(out@) =~= before.push(self.pushes@[i as int]@));
            i = i + 1;
        }
        out
    }

    fn find_rev(&self, rev: &str) -> (r: Option<String>)
        ensures
            match r {
                Some(sha) => self@.revs.contains_key(rev@) && self@.revs[rev@] == sha@,
                None => !self@.revs.contains_key(rev@),
            },
    {
        let ghost all = self.revs@;
        let mut i: usize = self.revs.len();
        assert(all.take(i as int) =~= all);
        while i > 0
            invariant
                i <= self.revs.len(),
                all == self.revs@,
                self@.revs == rev_table(all),
                rev_table(all).contains_key(rev@) == rev_table(all.take(i as int)).contains_key(
                    rev@,
                ),
                rev_table(all)[rev@] == rev_table(all.take(i as int))[rev@],
            decreases i,
        {
            assert(all.take(i as int).drop_last() =~= all.take(i - 1));
            if text::same(self.revs[i - 1].rev.as_str(), rev) {
                return Some(self.revs[i - 1].sha.clone());
            }
            i = i - 1;
        }
        None
    }
}

impl Default for FakeGit {
    fn default() -> (r: Self)
        ensures
            r@ == (FakeGitView {
                current_branch: None,
                pushes: Seq::empty(),
                commits: Map::empty(),
                revs: Map::empty(),
                ancestry: Set::empty(),
                conflicts: Seq::empty(),
            }),
            r.history() == Seq::<GitEvent>::empty(),
    {
        let mut fake = FakeGit::new("");
        fake.current_branch = None;
        fake
    }
}

impl GitOps for FakeGit {
    closed spec fn history(&self) -> Seq<GitEvent> {
        self.history@
    }

    fn current_branch(&mut self) -> (r: Result<Option<String>, StackError>)
        ensures
            final(self)@ == old(self)@,
            r matches Ok(b) && text::opt_view(b) == old(self)@.current_branch,
    {
        let r = Ok(text::copy_opt(&self.current_branch));
        self.history = Ghost(self.history@.push(GitEvent::CurrentBranch { reply: r }));
        r
    }

    fn rev_parse(&mut self, rev: &str) -> (r: Result<String, StackError>)
        ensures
            final(self)@ == old(self)@,
            match r {
                Ok(sha) => old(self)@.revs.contains_key(rev@) && old(self)@.revs[rev@] == sha@,
                Err(e) => !old(self)@.revs.contains_key(rev@) && e@ == Fault::Other(
                    "unknown revision: "@ + rev@,
                ),
            },
    {
        let r = match self.find_rev(rev) {
            Some(sha) => Ok(sha),
            None => Err(StackError::Other(text::cat("unknown revision: ", rev))),
        };
        self.history = Ghost(self.history@.push(GitEvent::RevParse { rev: rev@, reply: r }));
        r
    }

    fn is_ancestor(&mut self, ancestor: &str, descendant: &str) -> (r: Result<bool, StackError>)
        ensures
            final(self)@ == old(self)@,
            r matches Ok(b) && b == old(self)@.ancestry.contains((ancestor@, descendant@)),
    {
        let ghost all = self.ancestry@;
        let ghost key = (ancestor@, descendant@);
        let mut i: usize = self.ancestry.len();
        let mut found = false;
        assert(all.take(i as int) =~= all);
        while i > 0 && !found
            invariant
                i <= self.ancestry.len(),
                all == self.ancestry@,
                key == (ancestor@, descendant@),
                found ==> pair_set(all).contains(key),
                !found ==> pair_set(all).contains(key) == pair_set(
                    all.take(i as int),
                ).contains(key),
            decreases i,
        {
            assert(all.take(i as int).drop_last() =~= all.take(i - 1));
            let p = &self.ancestry[i - 1];
            if text::same(p.ancestor.as_str(), ancestor) && text::same(
                p.descendant.as_str(),
                descendant,
            ) {
                found = true;
            }
            i = i - 1;
        }
        let r = Ok(found);
        self.history = Ghost(
            self.history@.push(
                GitEvent::IsAncestor { ancestor: ancestor@, descendant: descendant@, reply: r },
            ),
        );
        r
    }

    fn push_atomic(&mut self, remote: &str, branches: &[String]) -> (r: Result<(), StackError>)
        ensures
            final(self)@ == (FakeGitView {
                pushes: old(self)@.pushes.push(
                    (PushView { remote: remote@, branches: text::views(branches@) }),
                ),
                ..old(self)@
            }),
            r is Ok,
    {
        let mut list: Vec<String> = Vec::new();
        let mut i: usize = 0;
        while i < branches.len()
            invariant
                i <= branches.len(),
                list@ == branches@.take(i as int),
            decreases branches.len() - i,
        {
            list.push(branches[i].clone());
            i = i + 1;
        }
        assert(list@ =~= branches@);
        let ghost before = push_views(self.pushes@);
        let call = PushCall { remote: remote.to_string(), branches: list };
        let ghost model = call@;
        self.pushes.push(call);
        assert(push_views(self.pushes@) =~= before.push(model));
        let r = Ok(());
        self.history = Ghost(
            self.history@.push(
                GitEvent::Push { remote: remote@, branches: text::views(branches@), reply: r },
            ),
        );
        r
    }

    fn commits_between(&mut self, base: &str, branch: &str) -> (r: Result<
        Vec<CommitSummary>,
        StackError,
    >)
        ensures
            final(self)@ == old(self)@,
            r matches Ok(list) && commit_views(list@) == (if old(self)@.commits.contains_key(
                (base@, branch@),
            ) {
                old(self)@.commits[(base@, branch@)]
            } else {
                Seq::empty()
            }),
    {
        let ghost all = self.commits@;
        let ghost key = (base@, branch@);
        let mut found: Vec<CommitSummary> = Vec::new();
        let mut hit = false;
        let mut i: usize = self.commits.len();
        assert(all.take(i as int) =~= all);
        assert(commit_views(found@) =~= Seq::<CommitView>::empty());
        while i > 0 && !hit
            invariant
                i <= self.commits.len(),
                all == self.commits@,
                key == (base@, branch@),
                hit ==> commit_table(all).contains_key(key) && commit_table(all)[key]
                    == commit_views(found@),
                !hit ==> commit_views(found@) == Seq::<CommitView>::empty(),
                !hit ==> commit_table(all).contains_key(key) == commit_table(
                    all.take(i as int),
                ).contains_key(key),
                !hit ==> commit_table(all)[key] == commit_table(all.take(i as int))[key],
            decreases i,
        {
            assert(all.take(i as int).drop_last() =~= all.take(i - 1));
            let e = &self.commits[i - 1];
            if text::same(e.base.as_str(), base) && text::same(e.branch.as_str(), branch) {
                let mut j: usize = 0;
                let mut copy: Vec<CommitSummary> = Vec::new();
                while j < e.commits.len()
                    invariant
                        j <= e.commits.len(),
                        copy@ == e.commits@.take(j as int),
                    decreases e.commits.len() - j,
                {
                    copy.push(e.commits[j].clone());
                    j = j + 1;
                }
                assert(copy@ =~= e.commits@);
                found = copy;
                hit = true;
            }
            i = i - 1;
        }
        let r = Ok(found);
        self.history = Ghost(
            self.history@.push(GitEvent::Commits { base: base@, branch: branch@, reply: r }),
        );
        r
    }

    fn branch_exists(&mut self, name: &str) -> (r: Result<bool, StackError>)
        ensures
            final(self)@ == old(self)@,
            r matches Ok(b) && b == old(self)@.revs.contains_key(name@),
    {
        let r = Ok(self.find_rev(name).is_some());
        self.history = Ghost(self.history@.push(GitEvent::BranchExists { name: name@, reply: r }));
        r
    }

    fn trunk_branch(&mut self) -> (r: Result<String, StackError>)
        ensures
            final(self)@ == old(self)@,
            r matches Ok(b) && b@ == "main"@,
    {
        let r = Ok("main".to_string());
        self.history = Ghost(self.history@.push(GitEvent::TrunkBranch { reply: r }));
        r
    }

    fn rebase_onto(&mut self, new_base: &str, old_base: &str, branch: &str) -> (r: Result<
        RebaseOutcome,
        StackError,
    >)
        ensures
            final(self)@ == old(self)@,
            if old(self)@.conflicts.contains(branch@) {
                r matches Err(e) && e@ == Fault::RebaseConflict
            } else {
                r matches Ok(o) && o.rerere_replays == 0
            },
    {
        let r = if text::list_contains(&self.conflicts, branch) {
            Err(StackError::RebaseConflict)
        } else {
            Ok(RebaseOutcome { rerere_replays: 0 })
        };
        self.history = Ghost(
            self.history@.push(
                GitEvent::RebaseOnto {
                    new_base: new_base@,
                    old_base: old_base@,
                    branch: branch@,
                    reply: r,
                },
            ),
        );
        r
    }
}

} // verus!
