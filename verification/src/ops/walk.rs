//! Walk a stack bottom-up, asking git for live state.
//!
//! The indicator of `view` and the planner of `rebase` need the same facts of
//! each branch: its live parent, where that is, where the branch is, and
//! whether the two agree.

use vstd::prelude::*;

use crate::domain::error::StackError;
use crate::domain::stack::{branch_views, Stack, StackView};
use crate::git::{GitEvent, GitOps};
use crate::ops::pool::rebase::found;
use crate::text;

verus! {

/// What is known of one branch after asking git.
#[derive(Debug)]
pub struct BranchStatus {
    /// Where the branch stands in the stack.
    pub index: usize,
    pub branch: String,
    pub is_merged: bool,
    /// The active branch below, or the trunk.
    pub live_parent_ref: String,
    /// Where that is, where git can tell.
    pub live_parent_head: Option<String>,
    /// Where the branch is, where git can tell.
    pub live_head: Option<String>,
    /// The commit that the branch was last based on.
    pub stored_base: String,
    /// Whether the parent is not an ancestor of the branch.
    pub needs_rebase: bool,
}

#[verifier::ext_equal]
pub struct BranchStatusView {
    pub index: int,
    pub branch: Seq<char>,
    pub is_merged: bool,
    pub live_parent_ref: Seq<char>,
    pub live_parent_head: Option<Seq<char>>,
    pub live_head: Option<Seq<char>>,
    pub stored_base: Seq<char>,
    pub needs_rebase: bool,
}

impl View for BranchStatus {
    type V = BranchStatusView;

    open spec fn view(&self) -> BranchStatusView {
        BranchStatusView {
            index: self.index as int,
            branch: self.branch@,
            is_merged: self.is_merged,
            live_parent_ref: self.live_parent_ref@,
            live_parent_head: text::opt_view(self.live_parent_head),
            live_head: text::opt_view(self.live_head),
            stored_base: self.stored_base@,
            needs_rebase: self.needs_rebase,
        }
    }
}

/// The models of a list of statuses.
pub open spec fn status_views(list: Seq<BranchStatus>) -> Seq<BranchStatusView> {
    list.map_values(|s: BranchStatus| s@)
}

/// The parent of the branch at `i`: the closest branch below that is not
/// merged, or the trunk.
pub open spec fn parent_of(stack: StackView, i: int) -> Seq<char>
    decreases i,
{
    if i <= 0 {
        stack.trunk.branch
    } else if !stack.branches[i - 1].is_merged() {
        stack.branches[i - 1].branch
    } else {
        parent_of(stack, i - 1)
    }
}

/// What was asked of git for one branch.
pub struct WalkTalk {
    pub head: GitEvent,
    pub parent: GitEvent,
    pub ancestor: Seq<GitEvent>,
}

impl WalkTalk {
    pub open spec fn events(self) -> Seq<GitEvent> {
        seq![self.head, self.parent] + self.ancestor
    }

    /// Whether git was asked for the branch and its parent and then, where
    /// both are known and the branch is not merged, whether they agree.
    pub open spec fn complete(self, stack: StackView, i: int) -> bool {
        let b = stack.branches[i];
        &&& self.head matches GitEvent::RevParse { rev, .. } && rev == b.branch
        &&& self.parent matches GitEvent::RevParse { rev, .. } && rev == parent_of(stack, i)
        &&& if !b.is_merged() && found(self.head) is Some && found(self.parent) is Some {
            &&& self.ancestor.len() == 1
            &&& self.ancestor[0] matches GitEvent::IsAncestor { ancestor, descendant, .. }
                && ancestor == found(self.parent)->0 && descendant == found(self.head)->0
        } else {
            self.ancestor.len() == 0
        }
    }

    /// What is then known of the branch. It needs a rebase only where git says
    /// that its parent is no ancestor.
    pub open spec fn status(self, stack: StackView, i: int) -> BranchStatusView {
        let b = stack.branches[i];
        BranchStatusView {
            index: i,
            branch: b.branch,
            is_merged: b.is_merged(),
            live_parent_ref: parent_of(stack, i),
            live_parent_head: found(self.parent),
            live_head: found(self.head),
            stored_base: b.base,
            needs_rebase: self.ancestor.len() == 1 && (
            self.ancestor[0] matches GitEvent::IsAncestor { reply: Ok(yes), .. } && !yes),
        }
    }
}

/// What was asked of git, branch after branch.
pub open spec fn all_events(talks: Seq<WalkTalk>) -> Seq<GitEvent>
    decreases talks.len(),
{
    if talks.len() == 0 {
        Seq::empty()
    } else {
        all_events(talks.drop_last()) + talks.last().events()
    }
}

/// Whether `talks` are a walk of the whole stack that finds these statuses.
pub open spec fn walks(
    talks: Seq<WalkTalk>,
    stack: StackView,
    statuses: Seq<BranchStatusView>,
) -> bool {
    &&& talks.len() == stack.branches.len()
    &&& statuses.len() == stack.branches.len()
    &&& forall|i: int| 0 <= i < talks.len() ==> (#[trigger] talks[i]).complete(stack, i)
    &&& forall|i: int|
        0 <= i < statuses.len() ==> #[trigger] statuses[i] == talks[i].status(stack, i)
}

/// Walk the stack bottom-up. The result is in stack order.
pub fn walk<G: GitOps>(git: &mut G, stack: &Stack) -> (r: Result<Vec<BranchStatus>, StackError>)
    ensures
        r is Ok,
        exists|talks: Seq<WalkTalk>|
            #[trigger] walks(talks, stack@, status_views(r->Ok_0@)) && final(git).history()
                == old(git).history() + all_events(talks),
{
    let ghost all = stack@.branches;
    let ghost mut talks: Seq<WalkTalk> = Seq::empty();
    let mut out: Vec<BranchStatus> = Vec::new();
    let mut parent_ref = stack.trunk.branch.clone();
    let mut i: usize = 0;
    assert(git.history() =~= old(git).history() + all_events(talks));
    while i < stack.branches.len()
        invariant
            i <= stack.branches.len(),
            all == branch_views(stack.branches@),
            all == stack@.branches,
            parent_ref@ == parent_of(stack@, i as int),
            talks.len() == i,
            out@.len() == i,
            git.history() == old(git).history() + all_events(talks),
            forall|j: int| 0 <= j < i ==> (#[trigger] talks[j]).complete(stack@, j),
            forall|j: int|
                0 <= j < i ==> #[trigger] status_views(out@)[j] == talks[j].status(stack@, j),
        decreases stack.branches.len() - i,
    {
        let b = &stack.branches[i];
        assert(all[i as int] == b@);
        let ghost h = git.history();
        let head_reply = git.rev_parse(b.branch.as_str());
        let ghost head = GitEvent::RevParse { rev: b.branch@, reply: head_reply };
        let live_head = match head_reply {
            Ok(s) => Some(s),
            Err(_) => None,
        };
        let parent_reply = git.rev_parse(parent_ref.as_str());
        let ghost parent = GitEvent::RevParse { rev: parent_ref@, reply: parent_reply };
        let live_parent_head = match parent_reply {
            Ok(s) => Some(s),
            Err(_) => None,
        };
        let ghost mut ancestor: Seq<GitEvent> = Seq::empty();
        let mut needs_rebase = false;
        if !b.is_merged() {
            if let (Some(p), Some(c)) = (&live_parent_head, &live_head) {
                let reply = git.is_ancestor(p.as_str(), c.as_str());
                proof {
                    ancestor = ancestor.push(
                        GitEvent::IsAncestor { ancestor: p@, descendant: c@, reply },
                    );
                }
                needs_rebase = match reply {
                    Ok(yes) => !yes,
                    Err(_) => false,
                };
            }
        }
        let ghost talk = WalkTalk { head, parent, ancestor };
        let ghost more = talks.push(talk);
        let ghost before = status_views(out@);
        let status = BranchStatus {
            index: i,
            branch: b.branch.clone(),
            is_merged: b.is_merged(),
            live_parent_ref: parent_ref.clone(),
            live_parent_head,
            live_head,
            stored_base: b.base.clone(),
            needs_rebase,
        };
        let ghost model = status@;
        out.push(status);
        proof {
            assert(git.history() =~= h + talk.events());
            assert(more.drop_last() =~= talks);
            assert(git.history() =~= old(git).history() + all_events(more));
            assert(status_views(out@) =~= before.push(model));
            assert(talk.complete(stack@, i as int));
            assert(model == talk.status(stack@, i as int));
            assert forall|j: int| 0 <= j < i + 1 implies (#[trigger] more[j]).complete(
                stack@,
                j,
            ) by {
                if j < i {
                    assert(more[j] == talks[j]);
                }
            }
            assert forall|j: int| 0 <= j < i + 1 implies #[trigger] status_views(out@)[j]
                == more[j].status(stack@, j) by {
                if j < i {
                    assert(status_views(out@)[j] == before[j]);
                    assert(more[j] == talks[j]);
                }
            }
            talks = more;
        }
        if !b.is_merged() {
            parent_ref = b.branch.clone();
        }
        i = i + 1;
    }
    assert(status_views(out@).len() == out@.len());
    let r = Ok(out);
    assert(walks(talks, stack@, status_views(r->Ok_0@)));
    r
}

/// Which part of a stack is meant.
#[derive(Debug, Clone, Copy, PartialEq, Eq, Structural)]
pub enum Scope {
    Full,
    /// The current branch and those above.
    Upstack,
    /// The current branch and those below.
    Downstack,
}

/// One branch to rebase.
#[derive(Debug)]
pub struct RebaseItem {
    pub branch_index: usize,
    pub branch: String,
    pub new_base: String,
    pub old_base: String,
}

#[verifier::ext_equal]
pub struct RebaseItemView {
    pub branch_index: int,
    pub branch: Seq<char>,
    pub new_base: Seq<char>,
    pub old_base: Seq<char>,
}

impl View for RebaseItem {
    type V = RebaseItemView;

    open spec fn view(&self) -> RebaseItemView {
        RebaseItemView {
            branch_index: self.branch_index as int,
            branch: self.branch@,
            new_base: self.new_base@,
            old_base: self.old_base@,
        }
    }
}

impl Clone for RebaseItem {
    fn clone(&self) -> (r: Self)
        ensures
            r == *self,
    {
        RebaseItem {
            branch_index: self.branch_index,
            branch: self.branch.clone(),
            new_base: self.new_base.clone(),
            old_base: self.old_base.clone(),
        }
    }
}

/// The models of a list of items.
pub open spec fn item_views(list: Seq<RebaseItem>) -> Seq<RebaseItemView> {
    list.map_values(|i: RebaseItem| i@)
}

/// Whether the branch at `i` is meant, where the current one is at `at`.
pub open spec fn in_scope(scope: Scope, at: Option<int>, i: int) -> bool {
    match scope {
        Scope::Full => true,
        Scope::Upstack => at matches Some(k) && i >= k,
        Scope::Downstack => at matches Some(k) && i <= k,
    }
}

/// Whether a branch has to be rebased, given whether one below it is: it is
/// not merged, git knows it and its parent, and the parent moves or is not
/// where the branch was last based.
pub open spec fn must_rebase(s: BranchStatusView, below: bool) -> bool {
    &&& !s.is_merged
    &&& s.live_head is Some
    &&& s.live_parent_head matches Some(p) && (below || p != s.stored_base)
}

/// The branches to rebase out of the first `n`, bottom-up: each that is meant
/// and must be, and then each above it, because its parent will move.
pub open spec fn planned(
    statuses: Seq<BranchStatusView>,
    scope: Scope,
    at: Option<int>,
    n: int,
) -> Seq<RebaseItemView>
    decreases n,
{
    if n <= 0 {
        Seq::empty()
    } else {
        let below = planned(statuses, scope, at, n - 1);
        let s = statuses[n - 1];
        if in_scope(scope, at, n - 1) && must_rebase(s, below.len() > 0) {
            below.push(
                RebaseItemView {
                    branch_index: n - 1,
                    branch: s.branch,
                    new_base: s.live_parent_head->0,
                    old_base: s.stored_base,
                },
            )
        } else {
            below
        }
    }
}

/// The branches to rebase, given what a walk found. `current` names the
/// current branch.
pub fn plan_rebase(
    stack: &Stack,
    statuses: &Vec<BranchStatus>,
    scope: Scope,
    current: &str,
) -> (r: Vec<RebaseItem>)
    ensures
        item_views(r@) == planned(
            status_views(statuses@),
            scope,
            stack@.position(current@),
            statuses@.len() as int,
        ),
{
    let ghost all = status_views(statuses@);
    let at = stack.position(current);
    let ghost place = stack@.position(current@);
    let mut plan: Vec<RebaseItem> = Vec::new();
    let mut i: usize = 0;
    assert(item_views(plan@) =~= planned(all, scope, place, 0));
    while i < statuses.len()
        invariant
            i <= statuses.len(),
            all == status_views(statuses@),
            place == (match at {
                Some(k) => Some(k as int),
                None => None,
            }),
            item_views(plan@) == planned(all, scope, place, i as int),
        decreases statuses.len() - i,
    {
        let ghost before = item_views(plan@);
        assert(before.len() == plan@.len());
        let s = &statuses[i];
        assert(all[i as int] == s@);
        let meant = match scope {
            Scope::Full => true,
            Scope::Upstack => match at {
                Some(k) => i >= k,
                None => false,
            },
            Scope::Downstack => match at {
                Some(k) => i <= k,
                None => false,
            },
        };
        if meant && !s.is_merged && s.live_head.is_some() {
            if let Some(p) = &s.live_parent_head {
                if plan.len() > 0 || *p != s.stored_base {
                    let item = RebaseItem {
                        branch_index: i,
                        branch: s.branch.clone(),
                        new_base: p.clone(),
                        old_base: s.stored_base.clone(),
                    };
                    let ghost model = item@;
                    plan.push(item);
                    assert(item_views(plan@) =~= before.push(model));
                }
            }
        }
        i = i + 1;
    }
    plan
}

/// The branches to rebase: walk the stack, then plan.
pub fn rebase_plan<G: GitOps>(git: &mut G, stack: &Stack, scope: Scope, current: &str) -> (r: Result<
    Vec<RebaseItem>,
    StackError,
>)
    ensures
        r is Ok,
        exists|talks: Seq<WalkTalk>, statuses: Seq<BranchStatusView>|
            #[trigger] walks(talks, stack@, statuses) && final(git).history() == old(
                git,
            ).history() + all_events(talks) && item_views(r->Ok_0@) == planned(
                statuses,
                scope,
                stack@.position(current@),
                statuses.len() as int,
            ),
{
    let walked = walk(git, stack);
    let ghost talks = choose|talks: Seq<WalkTalk>|
        #[trigger] walks(talks, stack@, status_views(walked->Ok_0@)) && git.history() == old(
            git,
        ).history() + all_events(talks);
    let statuses = walked?;
    let plan = plan_rebase(stack, &statuses, scope, current);
    assert(walks(talks, stack@, status_views(statuses@)));
    Ok(plan)
}

/// A merged branch never needs a rebase and is never anyone's parent, unless
/// another branch or the trunk has its name.
pub proof fn law_merged_is_passed_over(stack: StackView, talk: WalkTalk, i: int)
    requires
        0 <= i < stack.branches.len(),
        talk.complete(stack, i),
    ensures
        stack.branches[i].is_merged() ==> !talk.status(stack, i).needs_rebase,
        parent_of(stack, i) == stack.trunk.branch || exists|j: int|
            0 <= j < i && !(#[trigger] stack.branches[j]).is_merged() && parent_of(stack, i)
                == stack.branches[j].branch,
{
    lemma_parent(stack, i);
}

proof fn lemma_parent(stack: StackView, i: int)
    requires
        0 <= i <= stack.branches.len(),
    ensures
        parent_of(stack, i) == stack.trunk.branch || exists|j: int|
            0 <= j < i && !(#[trigger] stack.branches[j]).is_merged() && parent_of(stack, i)
                == stack.branches[j].branch,
    decreases i,
{
    if i > 0 {
        if stack.branches[i - 1].is_merged() {
            lemma_parent(stack, i - 1);
        } else {
            assert(!stack.branches[i - 1].is_merged());
        }
    }
}

/// A plan names branches that are not merged, each at most once and from the
/// bottom up, each where it stands.
pub proof fn law_plan_is_ordered(
    statuses: Seq<BranchStatusView>,
    scope: Scope,
    at: Option<int>,
    n: int,
)
    requires
        0 <= n <= statuses.len(),
    ensures
        ({
            let plan = planned(statuses, scope, at, n);
            &&& forall|k: int|
                0 <= k < plan.len() ==> {
                    let item = #[trigger] plan[k];
                    &&& 0 <= item.branch_index < n
                    &&& item.branch == statuses[item.branch_index].branch
                    &&& item.old_base == statuses[item.branch_index].stored_base
                    &&& !statuses[item.branch_index].is_merged
                    &&& in_scope(scope, at, item.branch_index)
                }
            &&& forall|j: int, k: int|
                0 <= j < k < plan.len() ==> (#[trigger] plan[j]).branch_index < (
                #[trigger] plan[k]).branch_index
        }),
    decreases n,
{
    if n > 0 {
        law_plan_is_ordered(statuses, scope, at, n - 1);
    }
}

/// There is nothing to rebase exactly where every branch that is meant, is not
/// merged, and is known to git with its parent, is based where its parent is.
pub proof fn law_plan_empty_when_in_line(
    statuses: Seq<BranchStatusView>,
    scope: Scope,
    at: Option<int>,
    n: int,
)
    requires
        0 <= n <= statuses.len(),
    ensures
        planned(statuses, scope, at, n).len() == 0 <==> forall|i: int|
            0 <= i < n && in_scope(scope, at, i) ==> !must_rebase(#[trigger] statuses[i], false),
    decreases n,
{
    if n > 0 {
        law_plan_empty_when_in_line(statuses, scope, at, n - 1);
        if planned(statuses, scope, at, n - 1).len() == 0 {
            assert(statuses[n - 1] == statuses[n - 1]);
        }
    }
}

/// Once a branch is planned, so is every branch above it that is meant, not
/// merged, and known to git with its parent: one rebase moves them all.
pub proof fn law_plan_cascades(
    statuses: Seq<BranchStatusView>,
    scope: Scope,
    at: Option<int>,
    i: int,
    n: int,
)
    requires
        0 <= i < n <= statuses.len(),
        planned(statuses, scope, at, i).len() > 0,
        in_scope(scope, at, i),
        must_rebase(statuses[i], true),
    ensures
        exists|k: int|
            0 <= k < planned(statuses, scope, at, n).len() && (
            #[trigger] planned(statuses, scope, at, n)[k]).branch_index == i,
    decreases n,
{
    if n == i + 1 {
        let plan = planned(statuses, scope, at, n);
        assert(plan[plan.len() - 1].branch_index == i);
    } else {
        law_plan_cascades(statuses, scope, at, i, n - 1);
        let below = planned(statuses, scope, at, n - 1);
        let plan = planned(statuses, scope, at, n);
        let k = choose|k: int| 0 <= k < below.len() && (#[trigger] below[k]).branch_index == i;
        assert(plan[k] == below[k]);
    }
}

/// A name that stands for what the branch at `i` sits on: that of a branch below
/// whose pull request is not merged, with only merged ones in between; or of the
/// trunk, where every branch below is merged.
pub open spec fn sits_on(stack: StackView, i: int, name: Seq<char>) -> bool {
    let merged = |j: int| stack.branches[j].pull_request matches Some(p) && p.merged;
    ||| name == stack.trunk.branch && forall|j: int| 0 <= j < i ==> #[trigger] merged(j)
    ||| exists|k: int|
        0 <= k < i && !#[trigger] merged(k) && name == stack.branches[k].branch && forall|j: int|
            k < j < i ==> #[trigger] merged(j)
}

/// Parents are what branches sit on.
pub proof fn lemma_parent_sits(stack: StackView, i: int)
    requires
        0 <= i <= stack.branches.len(),
    ensures
        sits_on(stack, i, parent_of(stack, i)),
    decreases i,
{
    let merged = |j: int| stack.branches[j].pull_request matches Some(p) && p.merged;
    if i > 0 {
        lemma_parent_sits(stack, i - 1);
        if merged(i - 1) {
            if exists|k: int|
                0 <= k < i - 1 && !#[trigger] merged(k) && parent_of(stack, i - 1)
                    == stack.branches[k].branch && forall|j: int|
                    k < j < i - 1 ==> #[trigger] merged(j) {
                let k = choose|k: int|
                    0 <= k < i - 1 && !#[trigger] merged(k) && parent_of(stack, i - 1)
                        == stack.branches[k].branch && forall|j: int|
                        k < j < i - 1 ==> #[trigger] merged(j);
                assert forall|j: int| k < j < i implies #[trigger] merged(j) by {}
                assert(!merged(k));
            } else {
                assert forall|j: int| 0 <= j < i implies #[trigger] merged(j) by {}
            }
        } else {
            assert(!merged(i - 1));
        }
    }
}

/// What a walk says of a branch is what git answered about it: its head, the
/// head of what it sits on, and that it needs a rebase exactly where git denied
/// that the one is an ancestor of the other. The base is the recorded one.
pub proof fn law_walk_tells_answers(
    talks: Seq<WalkTalk>,
    stack: StackView,
    statuses: Seq<BranchStatusView>,
    i: int,
)
    requires
        walks(talks, stack, statuses),
        0 <= i < stack.branches.len(),
    ensures
        ({
            let b = stack.branches[i];
            let s = statuses[i];
            let e = talks[i].events();
            let merged = b.pull_request matches Some(p) && p.merged;
            &&& s.index == i && s.branch == b.branch && s.stored_base == b.base && s.is_merged
                == merged
            &&& sits_on(stack, i, s.live_parent_ref)
            &&& e.len() == 2 || e.len() == 3
            &&& e[0] matches GitEvent::RevParse { rev, reply } && rev == b.branch && s.live_head
                == (match reply {
                Ok(sha) => Some(sha@),
                Err(_) => None,
            })
            &&& e[1] matches GitEvent::RevParse { rev, reply } && rev == s.live_parent_ref
                && s.live_parent_head == (match reply {
                Ok(sha) => Some(sha@),
                Err(_) => None,
            })
            &&& e.len() == 3 <==> !merged && s.live_head is Some && s.live_parent_head is Some
            &&& e.len() == 3 ==> (e[2] matches GitEvent::IsAncestor { ancestor, descendant, reply }
                && Some(ancestor) == s.live_parent_head && Some(descendant) == s.live_head
                && s.needs_rebase == (reply matches Ok(yes) && !yes))
            &&& e.len() == 2 ==> !s.needs_rebase
        }),
{
    assert(talks[i].complete(stack, i));
    assert(statuses[i] == talks[i].status(stack, i));
    lemma_parent_sits(stack, i);
}

/// A plan over a walked stack replays each branch from its recorded base onto
/// the head that git gave for what it sits on. Downwards from the current branch
/// only it and those below are planned, upwards only it and those above.
pub proof fn law_plan_replays_recorded(
    talks: Seq<WalkTalk>,
    stack: StackView,
    statuses: Seq<BranchStatusView>,
    scope: Scope,
    at: Option<int>,
    k: int,
)
    requires
        walks(talks, stack, statuses),
        0 <= k < planned(statuses, scope, at, statuses.len() as int).len(),
    ensures
        ({
            let item = planned(statuses, scope, at, statuses.len() as int)[k];
            let i = item.branch_index;
            &&& 0 <= i < stack.branches.len()
            &&& item.branch == stack.branches[i].branch
            &&& item.old_base == stack.branches[i].base
            &&& talks[i].events()[1] matches GitEvent::RevParse { rev, reply: Ok(sha) }
                && sits_on(stack, i, rev) && item.new_base == sha@
            &&& !(stack.branches[i].pull_request matches Some(p) && p.merged)
            &&& scope == Scope::Upstack ==> (at matches Some(here) && here <= i)
            &&& scope == Scope::Downstack ==> (at matches Some(here) && i <= here)
        }),
{
    law_plan_is_ordered(statuses, scope, at, statuses.len() as int);
    lemma_plan_bases(statuses, scope, at, statuses.len() as int, k);
    let i = planned(statuses, scope, at, statuses.len() as int)[k].branch_index;
    law_walk_tells_answers(talks, stack, statuses, i);
}

proof fn lemma_plan_bases(
    statuses: Seq<BranchStatusView>,
    scope: Scope,
    at: Option<int>,
    n: int,
    k: int,
)
    requires
        0 <= n <= statuses.len(),
        0 <= k < planned(statuses, scope, at, n).len(),
    ensures
        ({
            let item = planned(statuses, scope, at, n)[k];
            statuses[item.branch_index].live_parent_head == Some(item.new_base)
        }),
    decreases n,
{
    if n > 0 && k < planned(statuses, scope, at, n - 1).len() {
        lemma_plan_bases(statuses, scope, at, n - 1, k);
    }
}

/// A branch that is meant, not merged, and known to git with what it sits on,
/// stays out of the plan only where that is still its recorded base.
pub proof fn law_plan_leaves_nothing_out(
    talks: Seq<WalkTalk>,
    stack: StackView,
    statuses: Seq<BranchStatusView>,
    scope: Scope,
    at: Option<int>,
    i: int,
)
    requires
        walks(talks, stack, statuses),
        0 <= i < stack.branches.len(),
        !(stack.branches[i].pull_request matches Some(p) && p.merged),
        talks[i].events()[0] matches GitEvent::RevParse { reply: Ok(_), .. },
        talks[i].events()[1] matches GitEvent::RevParse { reply: Ok(sha), .. } && sha@
            != stack.branches[i].base,
        match scope {
            Scope::Full => true,
            Scope::Upstack => at matches Some(here) && here <= i,
            Scope::Downstack => at matches Some(here) && i <= here,
        },
    ensures
        exists|k: int|
            0 <= k < planned(statuses, scope, at, statuses.len() as int).len() && (#[trigger] planned(
                statuses,
                scope,
                at,
                statuses.len() as int,
            )[k]).branch_index == i,
{
    law_walk_tells_answers(talks, stack, statuses, i);
    lemma_planned_in(statuses, scope, at, i, statuses.len() as int);
}

proof fn lemma_planned_in(
    statuses: Seq<BranchStatusView>,
    scope: Scope,
    at: Option<int>,
    i: int,
    n: int,
)
    requires
        0 <= i < n <= statuses.len(),
        in_scope(scope, at, i),
        must_rebase(statuses[i], false),
    ensures
        exists|k: int|
            0 <= k < planned(statuses, scope, at, n).len() && (
            #[trigger] planned(statuses, scope, at, n)[k]).branch_index == i,
    decreases n,
{
    let plan = planned(statuses, scope, at, n);
    if n == i + 1 {
        assert(plan[plan.len() - 1].branch_index == i);
    } else {
        lemma_planned_in(statuses, scope, at, i, n - 1);
        let below = planned(statuses, scope, at, n - 1);
        let k = choose|k: int| 0 <= k < below.len() && (#[trigger] below[k]).branch_index == i;
        assert(plan[k] == below[k]);
    }
}

} // verus!
