//! A cascade under way: one branch after the other is rebased and recorded, and
//! the caller saves in between. A conflict stops it; what is kept then is
//! enough to go on later.

use vstd::prelude::*;

use crate::domain::error::StackError;
use crate::domain::stack::{BranchView, StackFile, StackFileView};
use crate::git::{GitEvent, GitOps};
use crate::ops::rebase::{
    as_ints, done_lines, done_text, indices, moved_onto_parent, rebase_item, rebases, record_resumed, remaining_plan,
    resumed_plan, stopped, with_branch_at, ItemOutcome, ItemTalk, RebaseState,
};
use crate::ops::walk::{item_views, lemma_parent_sits, RebaseItem, RebaseItemView};
use crate::text;

verus! {

#[derive(Debug)]
pub struct Cascade {
    pub stack_index: usize,
    /// The branches still to do, in order.
    pub remaining: Vec<RebaseItem>,
    /// Those already done.
    pub completed: Vec<RebaseItem>,
}

#[verifier::ext_equal]
pub struct CascadeView {
    pub stack_index: int,
    pub remaining: Seq<RebaseItemView>,
    pub completed: Seq<RebaseItemView>,
}

impl View for Cascade {
    type V = CascadeView;

    open spec fn view(&self) -> CascadeView {
        CascadeView {
            stack_index: self.stack_index as int,
            remaining: item_views(self.remaining@),
            completed: item_views(self.completed@),
        }
    }
}

impl CascadeView {
    /// Whether every branch still to do is there.
    pub open spec fn fits(self, file: StackFileView) -> bool {
        &&& 0 <= self.stack_index < file.stacks.len()
        &&& forall|k: int|
            0 <= k < self.remaining.len() ==> 0 <= (#[trigger] self.remaining[k]).branch_index
                < file.stacks[self.stack_index].branches.len()
    }

    /// The cascade with its next branch done.
    pub open spec fn after(self, live: RebaseItemView) -> CascadeView {
        CascadeView {
            remaining: self.remaining.skip(1),
            completed: self.completed.push(live),
            ..self
        }
    }
}

/// What one step came to.
#[derive(Debug)]
pub enum Step {
    /// Nothing is left to do.
    Finished,
    /// A branch was rebased and recorded: save, and tell the user this.
    Rebased(Vec<String>),
    /// A conflict stopped it: keep this, to go on with later.
    Stopped(RebaseState),
}

/// Whether `talk` takes a cascade one step further.
pub open spec fn advances(
    talk: ItemTalk,
    before: CascadeView,
    file: StackFileView,
    after: CascadeView,
    saved: StackFileView,
    r: Result<Step, StackError>,
) -> bool {
    let item = before.remaining[0];
    let b = file.stacks[before.stack_index].branches[item.branch_index];
    &&& talk.complete(file.stacks[before.stack_index], item)
    &&& saved == with_branch_at(file, before.stack_index, item.branch_index, talk.result(b))
    &&& if talk.conflicts() {
        &&& after == before
        &&& r matches Ok(Step::Stopped(state))
        &&& state.stack_index == before.stack_index
        &&& as_ints(state.remaining@) == indices(before.remaining.skip(1))
        &&& state.current@ == talk.live(item)
        &&& item_views(state.completed@) == before.completed
    } else {
        match talk.failed() {
            Some(f) => after == before && (r matches Err(e) && e@ == f),
            None => {
                &&& after == before.after(talk.live(item))
                &&& r matches Ok(Step::Rebased(lines))
                &&& talk.moves[0] matches GitEvent::RebaseOnto { reply: Ok(o), .. }
                    && text::views(lines@) == done_text(talk.live(item), o)
            },
        }
    }
}

fn copy_items(list: &Vec<RebaseItem>) -> (r: Vec<RebaseItem>)
    ensures
        r@ == list@,
{
    let mut out: Vec<RebaseItem> = Vec::new();
    let mut i: usize = 0;
    while i < list.len()
        invariant
            i <= list@.len(),
            out@ == list@.take(i as int),
        decreases list.len() - i,
    {
        out.push(list[i].clone());
        i = i + 1;
        assert(out@ =~= list@.take(i as int));
    }
    assert(out@ =~= list@);
    out
}

impl Cascade {
    /// A cascade over a plan.
    pub fn start(stack_index: usize, plan: Vec<RebaseItem>) -> (r: Self)
        ensures
            r@ == (CascadeView {
                stack_index: stack_index as int,
                remaining: item_views(plan@),
                completed: Seq::empty(),
            }),
    {
        let completed: Vec<RebaseItem> = Vec::new();
        assert(item_views(completed@) =~= Seq::<RebaseItemView>::empty());
        Cascade { stack_index, remaining: plan, completed }
    }

    /// Rebase the next branch onto where its parent is now, and record it.
    pub fn advance<G: GitOps>(&mut self, git: &mut G, file: &mut StackFile) -> (r: Result<
        Step,
        StackError,
    >)
        requires
            old(self)@.fits(old(file)@),
        ensures
            final(self)@.fits(final(file)@),
            if old(self)@.remaining.len() == 0 {
                &&& r == Ok::<Step, StackError>(Step::Finished)
                &&& final(self)@ == old(self)@
                &&& final(file)@ == old(file)@
                &&& final(git).history() == old(git).history()
            } else {
                exists|talk: ItemTalk|
                    #[trigger] advances(
                        talk,
                        old(self)@,
                        old(file)@,
                        final(self)@,
                        final(file)@,
                        r,
                    ) && final(git).history() == old(git).history() + talk.events()
            },
    {
        let ghost before = self@;
        let ghost start = file@;
        let ghost asked = git.history();
        assert(before.remaining.len() == self.remaining@.len());
        if self.remaining.len() == 0 {
            return Ok(Step::Finished);
        }
        let s: usize = self.stack_index;
        let item = self.remaining[0].clone();
        assert(before.remaining[0] == item@);
        assert(start.stacks[s as int] == file.stacks@[s as int]@);
        let outcome = rebase_item(git, file, s, &item);
        let ghost talk = choose|talk: ItemTalk|
            #[trigger] rebases(talk, start, s as int, item@, file@, outcome) && git.history()
                == asked + talk.events();
        assert(rebases(talk, start, s as int, item@, file@, outcome));
        match outcome {
            Err(e) => {
                assert(advances(talk, before, start, self@, file@, Err(e)));
                Err(e)
            },
            Ok(ItemOutcome::Conflict(live)) => {
                let state = stopped(s, &self.remaining, live, copy_items(&self.completed));
                let r = Step::Stopped(state);
                assert(advances(talk, before, start, self@, file@, Ok(r)));
                Ok(r)
            },
            Ok(ItemOutcome::Done(live, o)) => {
                let lines = done_lines(&live, &o);
                let ghost model = live@;
                self.completed.push(live);
                self.remaining.remove(0);
                let r = Step::Rebased(lines);
                proof {
                    assert(self@.completed =~= before.completed.push(model));
                    assert(self@.remaining =~= before.remaining.skip(1));
                    assert(self@.fits(file@)) by {
                        assert forall|k: int| 0 <= k < self@.remaining.len() implies 0 <= (
                        #[trigger] self@.remaining[k]).branch_index
                            < file@.stacks[s as int].branches.len() by {
                            assert(self@.remaining[k] == before.remaining[k + 1]);
                        }
                    }
                    assert(advances(talk, before, start, self@, file@, Ok(r)));
                }
                Ok(r)
            },
        }
    }
}

/// Whether every place that a stopped cascade speaks of is there.
pub open spec fn state_fits(state: RebaseState, file: StackFileView) -> bool {
    &&& state.stack_index < file.stacks.len()
    &&& state.current.branch_index < file.stacks[state.stack_index as int].branches.len()
    &&& forall|k: int|
        0 <= k < state.remaining@.len() ==> (#[trigger] state.remaining@[k])
            < file.stacks[state.stack_index as int].branches.len()
}

fn check_fits(state: &RebaseState, file: &StackFile) -> (r: bool)
    ensures
        r == state_fits(*state, file@),
{
    assert(file@.stacks.len() == file.stacks@.len());
    if state.stack_index >= file.stacks.len() {
        return false;
    }
    let stack = &file.stacks[state.stack_index];
    assert(file@.stacks[state.stack_index as int] == stack@);
    let n: usize = stack.branches.len();
    if state.current.branch_index >= n {
        return false;
    }
    let mut k: usize = 0;
    while k < state.remaining.len()
        invariant
            k <= state.remaining@.len(),
            n == file@.stacks[state.stack_index as int].branches.len(),
            forall|j: int| 0 <= j < k ==> (#[trigger] state.remaining@[j]) < n,
        decreases state.remaining.len() - k,
    {
        if state.remaining[k] >= n {
            return false;
        }
        k = k + 1;
    }
    true
}

/// The file once git has finished the branch that a conflict stopped.
pub open spec fn resumed_file(
    state: RebaseState,
    file: StackFileView,
    new_head: Seq<char>,
) -> StackFileView {
    let s = state.stack_index as int;
    let i = state.current.branch_index as int;
    with_branch_at(
        file,
        s,
        i,
        BranchView {
            base: state.current.new_base@,
            head: Some(new_head),
            ..file.stacks[s].branches[i]
        },
    )
}

/// Go on with a cascade that a conflict stopped, once git has finished that
/// branch with `new_head`: it is recorded, and the rest is still to do. `None`
/// where the file no longer has the branches.
pub fn resume(file: &mut StackFile, state: &RebaseState, new_head: &str) -> (r: Option<Cascade>)
    ensures
        if state_fits(*state, old(file)@) {
            &&& final(file)@ == resumed_file(*state, old(file)@, new_head@)
            &&& r matches Some(c)
            &&& c@ == (CascadeView {
                stack_index: state.stack_index as int,
                remaining: resumed_plan(
                    final(file)@.stacks[state.stack_index as int],
                    state.remaining@,
                ),
                completed: Seq::empty(),
            })
            &&& c@.fits(final(file)@)
        } else {
            &&& final(file)@ == old(file)@
            &&& r is None
        },
{
    if !check_fits(state, file) {
        return None;
    }
    let ghost before = file@;
    let s: usize = state.stack_index;
    assert(before.stacks.len() == file.stacks@.len());
    assert(before.stacks[s as int] == file.stacks@[s as int]@);
    record_resumed(file, state, new_head);
    assert(file@.stacks[s as int] == file.stacks@[s as int]@);
    assert(file@.stacks[s as int].branches.len() == before.stacks[s as int].branches.len());
    assert forall|k: int| 0 <= k < state.remaining@.len() implies #[trigger] state.remaining@[k]
        < file.stacks@[s as int].branches@.len() by {}
    let plan = remaining_plan(&file.stacks[s], &state.remaining);
    let c = Cascade::start(s, plan);
    proof {
        assert forall|k: int| 0 <= k < c@.remaining.len() implies 0 <= (
        #[trigger] c@.remaining[k]).branch_index < file@.stacks[s as int].branches.len() by {
            assert(c@.remaining[k].branch_index == state.remaining@[k] as int);
        }
    }
    Some(c)
}

/// A cascade comes nearer to its end with every step that rebases.
pub proof fn law_steps_finish(before: CascadeView, live: RebaseItemView)
    requires
        before.remaining.len() > 0,
    ensures
        before.after(live).remaining.len() == before.remaining.len() - 1,
        before.after(live).remaining.len() + before.after(live).completed.len()
            == before.remaining.len() + before.completed.len(),
{
}

/// A step takes up the first branch still to do. Where it goes through, git was
/// asked to put that branch onto the commit that it gave for its parent, from
/// the base in the plan; the branch is recorded there and counts as done, and
/// the others are still to do. Otherwise nothing is recorded or taken as done.
pub proof fn law_step_goes_onto_parent(
    talk: ItemTalk,
    before: CascadeView,
    file: StackFileView,
    after: CascadeView,
    saved: StackFileView,
    r: Result<Step, StackError>,
)
    requires
        advances(talk, before, file, after, saved, r),
        before.fits(file),
        before.remaining.len() > 0,
    ensures
        ({
            let item = before.remaining[0];
            let stack = file.stacks[before.stack_index];
            let is = saved.stacks[before.stack_index].branches[item.branch_index];
            let e = talk.events();
            &&& r matches Ok(Step::Rebased(_)) ==> {
                &&& moved_onto_parent(e, stack, item, is.base)
                &&& e.len() == 3
                &&& e[2] matches GitEvent::RevParse { rev, reply: Ok(head) } && rev == item.branch
                    && is.head == Some(head@)
                &&& after.remaining.len() == before.remaining.len() - 1
                &&& forall|k: int|
                    0 <= k < after.remaining.len() ==> #[trigger] after.remaining[k]
                        == before.remaining[k + 1]
                &&& after.completed.len() == before.completed.len() + 1
                &&& after.completed.last().branch == item.branch
                &&& after.completed.last().new_base == is.base
                &&& forall|k: int|
                    0 <= k < before.completed.len() ==> #[trigger] after.completed[k]
                        == before.completed[k]
            }
            &&& r matches Ok(Step::Stopped(state)) ==> {
                &&& moved_onto_parent(e, stack, item, state.current.new_base@)
                &&& state.current.branch@ == item.branch
                &&& state.current.branch_index == item.branch_index
                &&& state.stack_index == before.stack_index
                &&& state.remaining@.len() == before.remaining.len() - 1
                &&& forall|k: int|
                    0 <= k < state.remaining@.len() ==> #[trigger] state.remaining@[k]
                        == before.remaining[k + 1].branch_index
                &&& is == stack.branches[item.branch_index]
                &&& after == before
            }
            &&& r is Err ==> is == stack.branches[item.branch_index] && after == before
            &&& !(r matches Ok(Step::Finished))
            &&& forall|s: int, i: int|
                #![trigger saved.stacks[s].branches[i]]
                0 <= s < file.stacks.len() && 0 <= i < file.stacks[s].branches.len() && (s
                    != before.stack_index || i != item.branch_index) ==> saved.stacks[s].branches[i]
                    == file.stacks[s].branches[i]
        }),
{
    let item = before.remaining[0];
    let stack = file.stacks[before.stack_index];
    lemma_parent_sits(stack, item.branch_index);
    let e = talk.events();
    assert(e[0] == talk.parent);
    if talk.moves.len() > 0 {
        assert(e[1] == talk.moves[0]);
    }
    if talk.moves.len() > 1 {
        assert(e[2] == talk.moves[1]);
    }
    if let Ok(Step::Stopped(state)) = r {
        let left = before.remaining.skip(1);
        assert(indices(left).len() == left.len());
        assert(as_ints(state.remaining@).len() == state.remaining@.len());
        assert forall|k: int| 0 <= k < state.remaining@.len() implies #[trigger] state.remaining@[k]
            == before.remaining[k + 1].branch_index by {
            assert(as_ints(state.remaining@)[k] == state.remaining@[k] as int);
            assert(indices(left)[k] == left[k].branch_index);
        }
    }
}

/// A cascade that is taken up again records the branch that stopped it on the
/// commit that was kept, with the head that git finished it at, and goes on with
/// the other branches from where each is based.
pub proof fn law_resume_goes_on(state: RebaseState, file: StackFileView, new_head: Seq<char>)
    requires
        state_fits(state, file),
    ensures
        ({
            let s = state.stack_index as int;
            let at = state.current.branch_index as int;
            let after = resumed_file(state, file, new_head);
            let plan = resumed_plan(after.stacks[s], state.remaining@);
            &&& after.stacks[s].branches[at].base == state.current.new_base@
            &&& after.stacks[s].branches[at].head == Some(new_head)
            &&& after.stacks[s].branches[at].branch == file.stacks[s].branches[at].branch
            &&& forall|i: int|
                0 <= i < file.stacks[s].branches.len() && i != at
                    ==> #[trigger] after.stacks[s].branches[i] == file.stacks[s].branches[i]
            &&& plan.len() == state.remaining@.len()
            &&& forall|k: int|
                0 <= k < plan.len() ==> {
                    let item = #[trigger] plan[k];
                    &&& item.branch_index == state.remaining@[k]
                    &&& item.branch == after.stacks[s].branches[item.branch_index].branch
                    &&& item.old_base == after.stacks[s].branches[item.branch_index].base
                }
        }),
{
}

} // verus!
