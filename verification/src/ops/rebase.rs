//! Cascade rebase across a stack.
//!
//! When a branch moves, every branch above it has to follow. Branches are
//! rebased bottom-up; after each, its base and head are recorded. A conflict
//! stops the cascade, and what is left is kept so that it can be resumed.

use vstd::prelude::*;

use crate::domain::error::{Fault, StackError};
use crate::domain::stack::{
    branch_views, Branch, BranchView, Stack, StackFile, StackFileView, StackView,
};
use crate::git::{GitEvent, GitOps, RebaseOutcome};
use crate::ops::pool::rebase::found;
use crate::ops::walk::{
    item_views, lemma_parent_sits, parent_of, sits_on, RebaseItem, RebaseItemView,
};
use crate::text;

pub use crate::ops::walk::Scope;

verus! {

#[derive(Debug)]
pub struct RebaseArgs {
    pub scope: Scope,
    pub cont: bool,
    pub abort: bool,
    pub remote: String,
    pub no_refresh: bool,
}

/// What is kept of a cascade that stopped on a conflict.
#[derive(Debug)]
pub struct RebaseState {
    pub stack_index: usize,
    /// Where the branches still to do stand, in order.
    pub remaining: Vec<usize>,
    /// The branch that stopped it.
    pub current: RebaseItem,
    /// Those already done.
    pub completed: Vec<RebaseItem>,
}

/// How the rebase of one branch ended.
#[derive(Debug)]
pub enum ItemOutcome {
    /// It went through and is recorded. The item holds the base it went onto.
    Done(RebaseItem, RebaseOutcome),
    /// It stopped on a conflict, for the user to resolve.
    Conflict(RebaseItem),
}

/// What was asked of git to rebase one branch: where its parent is, to rebase,
/// and for the new head.
pub struct ItemTalk {
    pub parent: GitEvent,
    pub moves: Seq<GitEvent>,
}

impl ItemTalk {
    pub open spec fn events(self) -> Seq<GitEvent> {
        seq![self.parent] + self.moves
    }

    /// Whether the parent was asked for as it is now, since it may just have
    /// moved, and the branch replayed from where it was onto that.
    pub open spec fn complete(self, stack: StackView, item: RebaseItemView) -> bool {
        &&& self.parent matches GitEvent::RevParse { rev, .. } && rev == parent_of(
            stack,
            item.branch_index,
        )
        &&& match found(self.parent) {
            None => self.moves.len() == 0,
            Some(base) => {
                &&& self.moves.len() > 0
                &&& self.moves[0] matches GitEvent::RebaseOnto {
                    new_base,
                    old_base,
                    branch,
                    reply,
                }
                &&& new_base == base
                &&& old_base == item.old_base
                &&& branch == item.branch
                &&& match reply {
                    Err(_) => self.moves.len() == 1,
                    Ok(_) => self.moves.len() == 2 && (self.moves[1] matches GitEvent::RevParse {
                        rev,
                        ..
                    } && rev == item.branch),
                }
            },
        }
    }

    /// The item with the base that was found.
    pub open spec fn live(self, item: RebaseItemView) -> RebaseItemView {
        RebaseItemView { new_base: found(self.parent)->0, ..item }
    }

    /// Whether git stopped on a conflict.
    pub open spec fn conflicts(self) -> bool {
        &&& found(self.parent) is Some
        &&& self.moves[0] matches GitEvent::RebaseOnto { reply: Err(e), .. } && e@
            == Fault::RebaseConflict
    }

    /// Why the rebase failed otherwise.
    pub open spec fn failed(self) -> Option<Fault> {
        match self.parent {
            GitEvent::RevParse { reply: Err(e), .. } => Some(e@),
            _ => match self.moves[0] {
                GitEvent::RebaseOnto { reply: Err(e), .. } => if e@ == Fault::RebaseConflict {
                    None
                } else {
                    Some(e@)
                },
                _ => match self.moves[1] {
                    GitEvent::RevParse { reply: Err(e), .. } => Some(e@),
                    _ => None,
                },
            },
        }
    }

    /// The branch afterwards: one that was rebased records its new base and
    /// head.
    pub open spec fn result(self, b: BranchView) -> BranchView {
        if self.conflicts() || self.failed() is Some {
            b
        } else {
            BranchView { base: found(self.parent)->0, head: found(self.moves[1]), ..b }
        }
    }
}

/// The file with one branch of one stack replaced.
pub open spec fn with_branch_at(
    file: StackFileView,
    stack: int,
    i: int,
    b: BranchView,
) -> StackFileView {
    StackFileView {
        stacks: file.stacks.update(
            stack,
            StackView {
                branches: file.stacks[stack].branches.update(i, b),
                ..file.stacks[stack]
            },
        ),
        ..file
    }
}

/// Whether `talk` rebases one branch of a stack, turns one file into another
/// and returns `r`.
pub open spec fn rebases(
    talk: ItemTalk,
    before: StackFileView,
    stack: int,
    item: RebaseItemView,
    after: StackFileView,
    r: Result<ItemOutcome, StackError>,
) -> bool {
    let b = before.stacks[stack].branches[item.branch_index];
    &&& talk.complete(before.stacks[stack], item)
    &&& after == with_branch_at(before, stack, item.branch_index, talk.result(b))
    &&& if talk.conflicts() {
        r matches Ok(ItemOutcome::Conflict(live)) && live@ == talk.live(item)
    } else {
        match talk.failed() {
            Some(f) => r matches Err(e) && e@ == f,
            None => {
                &&& r matches Ok(ItemOutcome::Done(live, outcome))
                &&& live@ == talk.live(item)
                &&& talk.moves[0] matches GitEvent::RebaseOnto { reply: Ok(o), .. } && o == outcome
            },
        }
    }
}

/// The parent of the branch at `i`: the closest branch below that is not
/// merged, or the trunk.
fn parent_ref(stack: &Stack, i: usize) -> (r: String)
    requires
        i <= stack.branches@.len(),
    ensures
        r@ == parent_of(stack@, i as int),
{
    let mut k: usize = i;
    while k > 0
        invariant
            k <= i <= stack.branches@.len(),
            parent_of(stack@, i as int) == parent_of(stack@, k as int),
        decreases k,
    {
        assert(stack@.branches[k - 1] == stack.branches@[k - 1]@);
        if !stack.branches[k - 1].is_merged() {
            return stack.branches[k - 1].branch.clone();
        }
        k = k - 1;
    }
    stack.trunk.branch.clone()
}

fn rebase_onto_parent<G: GitOps>(git: &mut G, parent: &str, item: &RebaseItem, b: &mut Branch) -> (r:
    (Result<ItemOutcome, StackError>, Ghost<ItemTalk>))
    ensures
        final(git).history() == old(git).history() + r.1@.events(),
        forall|stack: StackView|
            parent_of(stack, item@.branch_index) == parent@ ==> #[trigger] r.1@.complete(
                stack,
                item@,
            ),
        final(b)@ == r.1@.result(old(b)@),
        if r.1@.conflicts() {
            r.0 matches Ok(ItemOutcome::Conflict(live)) && live@ == r.1@.live(item@)
        } else {
            match r.1@.failed() {
                Some(f) => r.0 matches Err(e) && e@ == f,
                None => {
                    &&& r.0 matches Ok(ItemOutcome::Done(live, outcome))
                    &&& live@ == r.1@.live(item@)
                    &&& r.1@.moves[0] matches GitEvent::RebaseOnto { reply: Ok(o), .. } && o
                        == outcome
                },
            }
        },
{
    let ghost mut moves: Seq<GitEvent> = Seq::empty();
    let reply = git.rev_parse(parent);
    let ghost asked = GitEvent::RevParse { rev: parent@, reply };
    let new_base = match reply {
        Err(e) => {
            let ghost talk = ItemTalk { parent: asked, moves };
            assert(git.history() =~= old(git).history() + talk.events());
            return (Err(e), Ghost(talk));
        },
        Ok(s) => s,
    };
    let reply = git.rebase_onto(new_base.as_str(), item.old_base.as_str(), item.branch.as_str());
    proof {
        moves = moves.push(
            GitEvent::RebaseOnto {
                new_base: new_base@,
                old_base: item.old_base@,
                branch: item.branch@,
                reply,
            },
        );
    }
    let live = RebaseItem {
        branch_index: item.branch_index,
        branch: item.branch.clone(),
        new_base: new_base.clone(),
        old_base: item.old_base.clone(),
    };
    let outcome = match reply {
        Err(e) => {
            let ghost talk = ItemTalk { parent: asked, moves };
            assert(git.history() =~= old(git).history() + talk.events());
            return match e {
                StackError::RebaseConflict => (Ok(ItemOutcome::Conflict(live)), Ghost(talk)),
                e => (Err(e), Ghost(talk)),
            };
        },
        Ok(o) => o,
    };
    let reply = git.rev_parse(item.branch.as_str());
    proof {
        moves = moves.push(GitEvent::RevParse { rev: item.branch@, reply });
    }
    let ghost talk = ItemTalk { parent: asked, moves };
    assert(git.history() =~= old(git).history() + talk.events());
    match reply {
        Err(e) => (Err(e), Ghost(talk)),
        Ok(head) => {
            b.base = new_base;
            b.head = Some(head);
            (Ok(ItemOutcome::Done(live, outcome)), Ghost(talk))
        },
    }
}

/// Rebase one branch of a plan onto where its parent is now, and record it.
pub fn rebase_item<G: GitOps>(
    git: &mut G,
    file: &mut StackFile,
    stack_index: usize,
    item: &RebaseItem,
) -> (r: Result<ItemOutcome, StackError>)
    requires
        stack_index < old(file).stacks@.len(),
        item.branch_index < old(file).stacks@[stack_index as int].branches@.len(),
    ensures
        exists|talk: ItemTalk|
            #[trigger] rebases(
                talk,
                old(file)@,
                stack_index as int,
                item@,
                final(file)@,
                r,
            ) && final(git).history() == old(git).history() + talk.events(),
        final(file).stacks@.len() == old(file).stacks@.len(),
        final(file).stacks@[stack_index as int].branches@.len() == old(
            file,
        ).stacks@[stack_index as int].branches@.len(),
{
    let ghost before = file@;
    let ghost list = file.stacks@[stack_index as int].branches@;
    let i: usize = item.branch_index;
    assert(before.stacks[stack_index as int] == file.stacks@[stack_index as int]@);
    assert(branch_views(list)[i as int] == list[i as int]@);
    let parent = parent_ref(&file.stacks[stack_index], i);
    let (outcome, Ghost(talk)) = rebase_onto_parent(
        git,
        parent.as_str(),
        item,
        &mut file.stacks[stack_index].branches[i],
    );
    proof {
        assert(talk.complete(before.stacks[stack_index as int], item@));
        let after = file.stacks@[stack_index as int].branches@;
        assert(branch_views(after) =~= branch_views(list).update(
            i as int,
            talk.result(list[i as int]@),
        ));
        assert(file@.stacks =~= with_branch_at(
            before,
            stack_index as int,
            i as int,
            talk.result(list[i as int]@),
        ).stacks);
        assert(rebases(talk, before, stack_index as int, item@, file@, outcome));
    }
    outcome
}

/// Where the branches of some items stand.
pub open spec fn indices(items: Seq<RebaseItemView>) -> Seq<int> {
    items.map_values(|i: RebaseItemView| i.branch_index)
}

/// Plain numbers as mathematical ones.
pub open spec fn as_ints(list: Seq<usize>) -> Seq<int> {
    list.map_values(|i: usize| i as int)
}

/// What to keep of a cascade that stopped: `remaining` starts with the branch
/// that stopped it, which `live` is.
pub fn stopped(
    stack_index: usize,
    remaining: &Vec<RebaseItem>,
    live: RebaseItem,
    completed: Vec<RebaseItem>,
) -> (r: RebaseState)
    requires
        remaining@.len() > 0,
    ensures
        r.stack_index == stack_index,
        as_ints(r.remaining@) == indices(item_views(remaining@).skip(1)),
        r.current == live,
        r.completed == completed,
{
    let ghost rest = item_views(remaining@).skip(1);
    let mut left: Vec<usize> = Vec::new();
    let mut i: usize = 1;
    assert(as_ints(left@) =~= indices(rest).take(0));
    while i < remaining.len()
        invariant
            1 <= i <= remaining.len(),
            rest == item_views(remaining@).skip(1),
            as_ints(left@) == indices(rest).take(i - 1),
        decreases remaining.len() - i,
    {
        let ghost before = as_ints(left@);
        assert(rest[i - 1] == remaining@[i as int]@);
        left.push(remaining[i].branch_index);
        assert(as_ints(left@) =~= before.push(rest[i - 1].branch_index));
        assert(as_ints(left@) =~= indices(rest).take(i as int));
        i = i + 1;
    }
    assert(as_ints(left@) =~= indices(rest));
    RebaseState { stack_index, remaining: left, current: live, completed }
}

/// Record the branch that a conflict stopped, once git has finished it with
/// `new_head`.
pub fn record_resumed(file: &mut StackFile, state: &RebaseState, new_head: &str)
    requires
        state.stack_index < old(file).stacks@.len(),
        state.current.branch_index < old(file).stacks@[state.stack_index as int].branches@.len(),
    ensures
        final(file)@ == with_branch_at(
            old(file)@,
            state.stack_index as int,
            state.current.branch_index as int,
            BranchView {
                base: state.current.new_base@,
                head: Some(new_head@),
                ..old(
                    file,
                )@.stacks[state.stack_index as int].branches[state.current.branch_index as int]
            },
        ),
        final(file).stacks@.len() == old(file).stacks@.len(),
        final(file).stacks@[state.stack_index as int].branches@.len() == old(
            file,
        ).stacks@[state.stack_index as int].branches@.len(),
{
    let ghost before = file@;
    let s: usize = state.stack_index;
    let i: usize = state.current.branch_index;
    let ghost list = file.stacks@[s as int].branches@;
    assert(before.stacks[s as int] == file.stacks@[s as int]@);
    assert(branch_views(list)[i as int] == list[i as int]@);
    file.stacks[s].branches[i].base = state.current.new_base.clone();
    file.stacks[s].branches[i].head = Some(new_head.to_string());
    proof {
        let b = BranchView {
            base: state.current.new_base@,
            head: Some(new_head@),
            ..before.stacks[s as int].branches[i as int]
        };
        assert(branch_views(file.stacks@[s as int].branches@) =~= branch_views(list).update(
            i as int,
            b,
        ));
        assert(file@.stacks =~= with_branch_at(before, s as int, i as int, b).stacks);
    }
}

/// What is left to do of a cascade, by where the branches stand: each is
/// replayed from where it is based now, onto wherever its parent will be.
pub open spec fn resumed_plan(stack: StackView, remaining: Seq<usize>) -> Seq<RebaseItemView> {
    remaining.map_values(
        |i: usize|
            RebaseItemView {
                branch_index: i as int,
                branch: stack.branches[i as int].branch,
                new_base: Seq::empty(),
                old_base: stack.branches[i as int].base,
            },
    )
}

/// What is left to do of a cascade that was stopped.
pub fn remaining_plan(stack: &Stack, remaining: &Vec<usize>) -> (r: Vec<RebaseItem>)
    requires
        forall|k: int|
            0 <= k < remaining@.len() ==> #[trigger] remaining@[k] < stack.branches@.len(),
    ensures
        item_views(r@) == resumed_plan(stack@, remaining@),
{
    let ghost target = resumed_plan(stack@, remaining@);
    let mut out: Vec<RebaseItem> = Vec::new();
    let mut k: usize = 0;
    assert(item_views(out@) =~= target.take(0));
    while k < remaining.len()
        invariant
            k <= remaining.len(),
            target == resumed_plan(stack@, remaining@),
            item_views(out@) == target.take(k as int),
            forall|j: int|
                0 <= j < remaining@.len() ==> #[trigger] remaining@[j] < stack.branches@.len(),
        decreases remaining.len() - k,
    {
        let ghost before = item_views(out@);
        let i: usize = remaining[k];
        assert(stack@.branches[i as int] == stack.branches@[i as int]@);
        let b = &stack.branches[i];
        let item = RebaseItem {
            branch_index: i,
            branch: b.branch.clone(),
            new_base: String::new(),
            old_base: b.base.clone(),
        };
        let ghost model = item@;
        out.push(item);
        assert(item_views(out@) =~= before.push(model));
        assert(model =~= target[k as int]);
        assert(item_views(out@) =~= target.take(k + 1));
        k = k + 1;
    }
    assert(target.take(remaining.len() as int) =~= target);
    out
}

/// A branch that was rebased is recorded at the base that git rebased it onto,
/// and no other branch of any stack changes.
pub proof fn law_rebase_records_base(
    talk: ItemTalk,
    before: StackFileView,
    stack: int,
    item: RebaseItemView,
    after: StackFileView,
    r: Result<ItemOutcome, StackError>,
)
    requires
        rebases(talk, before, stack, item, after, r),
        0 <= stack < before.stacks.len(),
        0 <= item.branch_index < before.stacks[stack].branches.len(),
    ensures
        r matches Ok(ItemOutcome::Done(live, _)) ==> after.stacks[stack].branches[
            item.branch_index
        ].base == live@.new_base,
        !(r matches Ok(ItemOutcome::Done(_, _))) ==> after == before,
        forall|s: int, i: int|
            #![trigger after.stacks[s].branches[i]]
            0 <= s < before.stacks.len() && 0 <= i < before.stacks[s].branches.len() && (s != stack
                || i != item.branch_index) ==> after.stacks[s].branches[i]
                == before.stacks[s].branches[i],
{
    if !(r matches Ok(ItemOutcome::Done(_, _))) {
        assert(after.stacks[stack].branches =~= before.stacks[stack].branches);
        assert(after.stacks =~= before.stacks);
    }
}

/// What is reported of a branch that was rebased.
pub open spec fn done_text(item: RebaseItemView, outcome: RebaseOutcome) -> Seq<Seq<char>> {
    seq!["✓ rebased "@ + item.branch + " onto "@ + text::start_of(item.new_base, 7)]
        + replays_text(outcome.rerere_replays)
}

/// What is reported of resolutions that git replayed, where it did.
pub open spec fn replays_text(n: usize) -> Seq<Seq<char>> {
    if n > 0 {
        seq![
            "  ↳ rerere replayed "@ + text::decimal(n as nat) + if n == 1 {
                " resolution"@
            } else {
                " resolutions"@
            },
        ]
    } else {
        Seq::empty()
    }
}

/// Report resolutions that git replayed, where it did.
pub(crate) fn push_replays(n: usize, out: &mut Vec<String>)
    ensures
        text::views(final(out)@) == text::views(old(out)@) + replays_text(n),
{
    let ghost start = text::views(out@);
    if n > 0 {
        let line = text::cat3(
            "  ↳ rerere replayed ",
            text::to_decimal(n as u64).as_str(),
            if n == 1 {
                " resolution"
            } else {
                " resolutions"
            },
        );
        let ghost model = line@;
        out.push(line);
        assert(text::views(out@) =~= start.push(model));
    }
    assert(text::views(out@) =~= start + replays_text(n));
}

/// What to report of a branch that was rebased.
pub fn done_lines(item: &RebaseItem, outcome: &RebaseOutcome) -> (r: Vec<String>)
    ensures
        text::views(r@) == done_text(item@, *outcome),
{
    let mut line = text::cat3("✓ rebased ", item.branch.as_str(), " onto ");
    line.append(text::shorten(item.new_base.as_str(), 7).as_str());
    let ghost model = line@;
    let mut out: Vec<String> = Vec::new();
    out.push(line);
    assert(text::views(out@) =~= seq![model]);
    push_replays(outcome.rerere_replays, &mut out);
    out
}

/// The recorded head of the parent of the branch at `i`: of the closest branch
/// below that is not merged, or of the trunk.
pub open spec fn parent_head(stack: StackView, i: int) -> Option<Seq<char>>
    decreases i,
{
    if i <= 0 {
        Some(stack.trunk.head)
    } else if !stack.branches[i - 1].is_merged() {
        stack.branches[i - 1].head
    } else {
        parent_head(stack, i - 1)
    }
}

/// The stack after the first `n` items of a plan went as `talks` say.
pub open spec fn cascaded(
    stack: StackView,
    plan: Seq<RebaseItemView>,
    talks: Seq<ItemTalk>,
    n: int,
) -> StackView
    decreases n,
{
    if n <= 0 {
        stack
    } else {
        let mid = cascaded(stack, plan, talks, n - 1);
        let i = plan[n - 1].branch_index;
        StackView { branches: mid.branches.update(i, talks[n - 1].result(mid.branches[i])), ..mid }
    }
}

/// Whether a talk went through, and git found the parent where it is recorded.
pub open spec fn as_recorded(talk: ItemTalk, stack: StackView, item: RebaseItemView) -> bool {
    &&& talk.complete(stack, item)
    &&& !talk.conflicts()
    &&& talk.failed() is None
    &&& found(talk.parent) == parent_head(stack, item.branch_index)
}

/// What lies below a branch decides its parent's head.
proof fn lemma_parent_head(a: StackView, b: StackView, i: int)
    requires
        0 <= i <= a.branches.len(),
        a.branches.len() == b.branches.len(),
        a.trunk == b.trunk,
        forall|k: int| 0 <= k < i ==> #[trigger] a.branches[k] == b.branches[k],
    ensures
        parent_head(a, i) == parent_head(b, i),
    decreases i,
{
    if i > 0 {
        assert(a.branches[i - 1] == b.branches[i - 1]);
        lemma_parent_head(a, b, i - 1);
    }
}

/// A cascade that goes through, bottom-up, leaves every branch that it rebased
/// based on the recorded head of its parent, as long as nothing but the cascade
/// moves a branch while it runs.
pub proof fn law_cascade_is_in_line(
    stack: StackView,
    plan: Seq<RebaseItemView>,
    talks: Seq<ItemTalk>,
    n: int,
)
    requires
        0 <= n <= plan.len(),
        talks.len() == plan.len(),
        forall|k: int|
            0 <= k < plan.len() ==> 0 <= (#[trigger] plan[k]).branch_index < stack.branches.len(),
        forall|j: int, k: int|
            0 <= j < k < plan.len() ==> (#[trigger] plan[j]).branch_index < (
            #[trigger] plan[k]).branch_index,
        forall|k: int|
            0 <= k < plan.len() ==> as_recorded(
                #[trigger] talks[k],
                cascaded(stack, plan, talks, k),
                plan[k],
            ),
    ensures
        cascaded(stack, plan, talks, n).trunk == stack.trunk,
        cascaded(stack, plan, talks, n).branches.len() == stack.branches.len(),
        forall|k: int|
            0 <= k < n ==> Some(
                cascaded(stack, plan, talks, n).branches[(#[trigger] plan[k]).branch_index].base,
            ) == parent_head(cascaded(stack, plan, talks, n), plan[k].branch_index),
    decreases n,
{
    if n > 0 {
        law_cascade_is_in_line(stack, plan, talks, n - 1);
        let mid = cascaded(stack, plan, talks, n - 1);
        let after = cascaded(stack, plan, talks, n);
        let at = plan[n - 1].branch_index;
        assert(as_recorded(talks[n - 1], mid, plan[n - 1]));
        assert forall|k: int| 0 <= k < n implies Some(
            after.branches[(#[trigger] plan[k]).branch_index].base,
        ) == parent_head(after, plan[k].branch_index) by {
            let i = plan[k].branch_index;
            lemma_parent_head(mid, after, i);
            if k < n - 1 {
                assert(i < at);
                assert(after.branches[i] == mid.branches[i]);
            } else {
                assert(after.branches[i].base == found(talks[k].parent)->0);
            }
        }
    }
}

/// A cascade that was stopped goes on with what was left of its plan: the same
/// branches, in the same order, each replayed from where it was based.
pub proof fn law_resume_keeps_plan(
    stack: StackView,
    rest: Seq<RebaseItemView>,
    remaining: Seq<usize>,
)
    requires
        as_ints(remaining) == indices(rest),
        forall|k: int|
            0 <= k < rest.len() ==> {
                let item = #[trigger] rest[k];
                &&& item.branch == stack.branches[item.branch_index].branch
                &&& item.old_base == stack.branches[item.branch_index].base
            },
    ensures
        resumed_plan(stack, remaining) == rest.map_values(
            |item: RebaseItemView| RebaseItemView { new_base: Seq::empty(), ..item },
        ),
{
    let clear = rest.map_values(
        |item: RebaseItemView| RebaseItemView { new_base: Seq::empty(), ..item },
    );
    let plan = resumed_plan(stack, remaining);
    assert(as_ints(remaining).len() == remaining.len());
    assert(indices(rest).len() == rest.len());
    assert forall|k: int| 0 <= k < rest.len() implies #[trigger] plan[k] == clear[k] by {
        assert(as_ints(remaining)[k] == remaining[k] as int);
        assert(indices(rest)[k] == rest[k].branch_index);
    }
    assert(plan =~= clear);
}

/// Whether git was asked to put a branch onto the commit that it had just given
/// for what the branch sits on, from the base that the plan holds for it.
pub open spec fn moved_onto_parent(
    events: Seq<GitEvent>,
    stack: StackView,
    item: RebaseItemView,
    onto: Seq<char>,
) -> bool {
    &&& events.len() >= 2
    &&& events[0] matches GitEvent::RevParse { rev, reply: Ok(sha) } && sits_on(
        stack,
        item.branch_index,
        rev,
    ) && sha@ == onto
    &&& events[1] matches GitEvent::RebaseOnto { new_base, old_base, branch, .. } && new_base
        == onto && old_base == item.old_base && branch == item.branch
}

/// A branch that was rebased was put onto the commit that git gave for its
/// parent, replayed from the base in the plan; that commit is then its recorded
/// base, and its recorded head is what git gave for the branch afterwards. One
/// that conflicts was on its way to the same commit and keeps its record.
pub proof fn law_rebase_goes_onto_parent(
    talk: ItemTalk,
    before: StackFileView,
    stack: int,
    item: RebaseItemView,
    after: StackFileView,
    r: Result<ItemOutcome, StackError>,
)
    requires
        rebases(talk, before, stack, item, after, r),
        0 <= stack < before.stacks.len(),
        0 <= item.branch_index < before.stacks[stack].branches.len(),
    ensures
        ({
            let e = talk.events();
            let was = before.stacks[stack].branches[item.branch_index];
            let is = after.stacks[stack].branches[item.branch_index];
            &&& r matches Ok(ItemOutcome::Done(live, outcome)) ==> {
                &&& moved_onto_parent(e, before.stacks[stack], item, live@.new_base)
                &&& e.len() == 3
                &&& e[1] matches GitEvent::RebaseOnto { reply: Ok(o), .. } && o == outcome
                &&& e[2] matches GitEvent::RevParse { rev, reply: Ok(head) } && rev == item.branch
                    && is.head == Some(head@)
                &&& is.base == live@.new_base
                &&& is.branch == was.branch && is.pull_request == was.pull_request
                &&& live@.branch == item.branch && live@.old_base == item.old_base
                    && live@.branch_index == item.branch_index
            }
            &&& r matches Ok(ItemOutcome::Conflict(live)) ==> {
                &&& moved_onto_parent(e, before.stacks[stack], item, live@.new_base)
                &&& e.len() == 2
                &&& e[1] matches GitEvent::RebaseOnto { reply: Err(f), .. } && f@
                    == Fault::RebaseConflict
                &&& live@.branch == item.branch && live@.old_base == item.old_base
                    && live@.branch_index == item.branch_index
                &&& is == was
            }
            &&& r matches Err(f) ==> {
                &&& is == was
                &&& e.len() > 0
                &&& match e.last() {
                    GitEvent::RevParse { reply: Err(g), .. } => f@ == g@,
                    GitEvent::RebaseOnto { reply: Err(g), .. } => f@ == g@ && f@
                        != Fault::RebaseConflict,
                    _ => false,
                }
            }
        }),
{
    lemma_parent_sits(before.stacks[stack], item.branch_index);
    let e = talk.events();
    assert(e[0] == talk.parent);
    assert forall|k: int| 0 <= k < talk.moves.len() implies e[k + 1] == #[trigger] talk.moves[k] by {
    }
    if talk.moves.len() > 0 {
        assert(e[1] == talk.moves[0]);
    }
    if talk.moves.len() > 1 {
        assert(e[2] == talk.moves[1]);
    }
}

/// What a stopped cascade keeps leads to the same record as if it had not
/// stopped: the branch ends up on the commit that git was asked to put it on.
pub proof fn law_resume_records_the_same(
    talk: ItemTalk,
    stack: StackView,
    item: RebaseItemView,
    state: RebaseState,
)
    requires
        talk.complete(stack, item),
        talk.conflicts(),
        state.current@ == talk.live(item),
    ensures
        talk.events()[1] matches GitEvent::RebaseOnto { new_base, branch, .. } && new_base
            == state.current.new_base@ && branch == state.current.branch@,
        state.current.branch_index == item.branch_index,
{
    assert(talk.events()[1] == talk.moves[0]);
}

/// A branch that was rebased is told with the commit that it sits on now, and with
/// how many resolutions git replayed where it did.
pub proof fn law_rebase_is_told(item: RebaseItemView, outcome: RebaseOutcome)
    ensures
        ({
            let lines = done_text(item, outcome);
            &&& lines.len() > 0
            &&& lines[0] == "✓ rebased "@ + item.branch + " onto "@ + text::start_of(
                item.new_base,
                7,
            )
            &&& lines.len() == 2 <==> outcome.rerere_replays > 0
            &&& outcome.rerere_replays > 0 ==> text::has_part(
                lines[1],
                text::decimal(outcome.rerere_replays as nat),
            )
        }),
{
    if outcome.rerere_replays > 0 {
        let n = text::decimal(outcome.rerere_replays as nat);
        let end = if outcome.rerere_replays == 1 {
            " resolution"@
        } else {
            " resolutions"@
        };
        text::lemma_part_whole(n);
        text::lemma_part_within("  ↳ rerere replayed "@, n, end, n);
    }
}

} // verus!
