//! `stack remove`: stop tracking a stack and remove its worktrees. Uncommitted
//! changes are not thrown away unless forced. The git branches are left alone.

use vstd::prelude::*;

use crate::domain::error::{Fault, StackError};
use crate::domain::stack::{stack_views, Stack, StackFile, StackFileView, StackView};
use crate::ops::add::{stacks_disjoint, unheld};
use crate::paths;
use crate::seqs;
use crate::text;

verus! {

#[derive(Debug)]
pub struct RemoveArgs {
    pub branch: String,
    pub force: bool,
}

/// A worktree that git knows: the branch it has checked out, whether its
/// directory is there, and whether it holds no uncommitted change.
#[derive(Debug)]
pub struct WorktreeFacts {
    pub path: String,
    pub branch: String,
    pub present: bool,
    pub clean: Result<bool, StackError>,
}

#[verifier::ext_equal]
pub struct FactsView {
    pub path: Seq<char>,
    pub branch: Seq<char>,
    pub present: bool,
    pub clean: Result<bool, Fault>,
}

impl View for WorktreeFacts {
    type V = FactsView;

    open spec fn view(&self) -> FactsView {
        FactsView {
            path: self.path@,
            branch: self.branch@,
            present: self.present,
            clean: crate::git::output::answer(self.clean),
        }
    }
}

/// The models of a list of worktrees.
pub open spec fn facts_views(list: Seq<WorktreeFacts>) -> Seq<FactsView> {
    list.map_values(|w: WorktreeFacts| w@)
}

/// The worktrees that show a branch of the stack.
pub open spec fn ours(stack: StackView) -> spec_fn(FactsView) -> bool {
    |w: FactsView| stack.has(w.branch)
}

/// The worktrees of which git could not say whether they are clean, though
/// they are there.
pub open spec fn unreadable() -> spec_fn(FactsView) -> bool {
    |w: FactsView| w.present && w.clean is Err
}

/// The worktrees that are there and hold uncommitted changes.
pub open spec fn dirty() -> spec_fn(FactsView) -> bool {
    |w: FactsView| w.present && w.clean == Ok::<bool, Fault>(false)
}

/// The worktrees that are there.
pub open spec fn present() -> spec_fn(FactsView) -> bool {
    |w: FactsView| w.present
}

/// The worktrees that a directory lies in.
pub open spec fn around(cwd: Seq<char>) -> spec_fn(FactsView) -> bool {
    |w: FactsView| paths::under(cwd, w.path)
}

/// The paths of a list of worktrees.
pub open spec fn paths_of(list: Seq<FactsView>) -> Seq<Seq<char>> {
    list.map_values(|w: FactsView| w.path)
}

/// Why a stack cannot be removed: git could not tell whether a worktree is
/// clean; or one is not; or the command runs inside one. The first two do not
/// count where removal is forced.
pub open spec fn refusal(list: Seq<FactsView>, cwd: Seq<char>, force: bool) -> Option<Fault> {
    if !force && seqs::first_where(list, unreadable()) is Some {
        Some(list[seqs::first_where(list, unreadable())->0].clean->Err_0)
    } else if !force && list.filter(dirty()).len() > 0 {
        Some(Fault::InvalidArgs("worktree has uncommitted changes"@))
    } else {
        match seqs::first_where(list, around(cwd)) {
            Some(k) => Some(
                Fault::InvalidArgs(
                    "cannot remove a stack from inside its own worktree ("@ + list[k].path
                        + "); cd elsewhere first"@,
                ),
            ),
            None => None,
        }
    }
}

/// The worktrees of a stack.
fn select(stack: &Stack, worktrees: &Vec<WorktreeFacts>) -> (r: Vec<usize>)
    ensures
        Seq::new(r@.len(), |k: int| facts_views(worktrees@)[r@[k] as int]) == facts_views(
            worktrees@,
        ).filter(ours(stack@)),
        forall|k: int| 0 <= k < r@.len() ==> #[trigger] r@[k] < worktrees@.len(),
{
    let ghost all = facts_views(worktrees@);
    let mut out: Vec<usize> = Vec::new();
    let mut i: usize = 0;
    assert(all.take(0).filter(ours(stack@)).len() == 0) by {
        reveal(Seq::filter);
    }
    assert(Seq::new(out@.len(), |k: int| all[out@[k] as int]) =~= all.take(0).filter(
        ours(stack@),
    ));
    while i < worktrees.len()
        invariant
            i <= worktrees@.len(),
            all == facts_views(worktrees@),
            Seq::new(out@.len(), |k: int| all[out@[k] as int]) == all.take(i as int).filter(
                ours(stack@),
            ),
            forall|k: int| 0 <= k < out@.len() ==> #[trigger] out@[k] < worktrees@.len(),
        decreases worktrees.len() - i,
    {
        proof {
            seqs::lemma_filter_step(all, i as int, ours(stack@));
            assert(all[i as int] == worktrees@[i as int]@);
        }
        let ghost before = out@;
        if stack.contains(worktrees[i].branch.as_str()) {
            out.push(i);
            assert(Seq::new(out@.len(), |k: int| all[out@[k] as int]) =~= Seq::new(
                before.len(),
                |k: int| all[before[k] as int],
            ).push(all[i as int]));
        }
        i = i + 1;
    }
    assert(all.take(worktrees.len() as int) =~= all);
    out
}

/// The worktrees of a stack that hold uncommitted changes, or the error that
/// kept git from telling.
pub fn dirty_worktrees(stack: &Stack, worktrees: &Vec<WorktreeFacts>) -> (r: Result<
    Vec<String>,
    StackError,
>)
    ensures
        ({
            let list = facts_views(worktrees@).filter(ours(stack@));
            match seqs::first_where(list, unreadable()) {
                Some(k) => r matches Err(e) && e@ == list[k].clean->Err_0,
                None => r matches Ok(found) && text::views(found@) == paths_of(
                    list.filter(dirty()),
                ),
            }
        }),
{
    let chosen = select(stack, worktrees);
    let ghost all = facts_views(worktrees@);
    let ghost list = all.filter(ours(stack@));
    assert(list == Seq::new(chosen@.len(), |k: int| all[chosen@[k] as int]));
    let mut out: Vec<String> = Vec::new();
    let mut i: usize = 0;
    assert(list.take(0).filter(dirty()).len() == 0) by {
        reveal(Seq::filter);
    }
    assert(text::views(out@) =~= paths_of(list.take(0).filter(dirty())));
    while i < chosen.len()
        invariant
            i <= chosen@.len(),
            all == facts_views(worktrees@),
            list == Seq::new(chosen@.len(), |k: int| all[chosen@[k] as int]),
            list == all.filter(ours(stack@)),
            forall|k: int| 0 <= k < chosen@.len() ==> #[trigger] chosen@[k] < worktrees@.len(),
            forall|k: int| 0 <= k < i ==> !unreadable()(#[trigger] list[k]),
            text::views(out@) == paths_of(list.take(i as int).filter(dirty())),
        decreases chosen.len() - i,
    {
        let w = &worktrees[chosen[i]];
        proof {
            seqs::lemma_filter_step(list, i as int, dirty());
            assert(list[i as int] == w@);
        }
        if w.present {
            match &w.clean {
                Err(e) => {
                    proof {
                        seqs::lemma_first_where(list, unreadable(), i as int);
                    }
                    return Err(e.clone());
                },
                Ok(clean) => {
                    if !*clean {
                        let ghost before = text::views(out@);
                        let ghost kept = list.take(i as int).filter(dirty());
                        out.push(w.path.clone());
                        assert(text::views(out@) =~= before.push(w.path@));
                        assert(paths_of(kept.push(list[i as int])) =~= paths_of(kept).push(
                            w.path@,
                        ));
                    }
                },
            }
        }
        i = i + 1;
    }
    proof {
        assert(list.take(chosen.len() as int) =~= list);
        seqs::lemma_first_where_none(list, unreadable());
    }
    Ok(out)
}

/// The worktrees to remove with a stack: those of its branches that are there.
/// An error where the stack cannot be removed.
pub fn removable(stack: &Stack, worktrees: &Vec<WorktreeFacts>, cwd: &str, force: bool) -> (r:
    Result<Vec<String>, StackError>)
    ensures
        ({
            let list = facts_views(worktrees@).filter(ours(stack@));
            match refusal(list, cwd@, force) {
                Some(f) => r matches Err(e) && e@ == f,
                None => r matches Ok(found) && text::views(found@) == paths_of(
                    list.filter(present()),
                ),
            }
        }),
{
    let ghost all = facts_views(worktrees@);
    let ghost list = all.filter(ours(stack@));
    if !force {
        match dirty_worktrees(stack, worktrees) {
            Err(e) => {
                return Err(e);
            },
            Ok(found) => {
                assert(text::views(found@).len() == found@.len());
                if found.len() > 0 {
                    return Err(
                        StackError::InvalidArgs("worktree has uncommitted changes".to_string()),
                    );
                }
            },
        }
    }
    let chosen = select(stack, worktrees);
    assert(list == Seq::new(chosen@.len(), |k: int| all[chosen@[k] as int]));
    let mut out: Vec<String> = Vec::new();
    let mut i: usize = 0;
    assert(list.take(0).filter(present()).len() == 0) by {
        reveal(Seq::filter);
    }
    assert(text::views(out@) =~= paths_of(list.take(0).filter(present())));
    while i < chosen.len()
        invariant
            i <= chosen@.len(),
            all == facts_views(worktrees@),
            list == Seq::new(chosen@.len(), |k: int| all[chosen@[k] as int]),
            list == all.filter(ours(stack@)),
            forall|k: int| 0 <= k < chosen@.len() ==> #[trigger] chosen@[k] < worktrees@.len(),
            forall|k: int| 0 <= k < i ==> !around(cwd@)(#[trigger] list[k]),
            refusal(list, cwd@, force) == (match seqs::first_where(list, around(cwd@)) {
                Some(k) => Some(
                    Fault::InvalidArgs(
                        "cannot remove a stack from inside its own worktree ("@ + list[k].path
                            + "); cd elsewhere first"@,
                    ),
                ),
                None => None,
            }),
            text::views(out@) == paths_of(list.take(i as int).filter(present())),
        decreases chosen.len() - i,
    {
        let w = &worktrees[chosen[i]];
        proof {
            seqs::lemma_filter_step(list, i as int, present());
            assert(list[i as int] == w@);
        }
        if paths::starts_with(cwd, w.path.as_str()) {
            proof {
                seqs::lemma_first_where(list, around(cwd@), i as int);
            }
            return Err(
                StackError::InvalidArgs(
                    text::cat3(
                        "cannot remove a stack from inside its own worktree (",
                        w.path.as_str(),
                        "); cd elsewhere first",
                    ),
                ),
            );
        }
        if w.present {
            let ghost before = text::views(out@);
            let ghost kept = list.take(i as int).filter(present());
            out.push(w.path.clone());
            assert(text::views(out@) =~= before.push(w.path@));
            assert(paths_of(kept.push(list[i as int])) =~= paths_of(kept).push(w.path@));
        }
        i = i + 1;
    }
    proof {
        assert(list.take(chosen.len() as int) =~= list);
        seqs::lemma_first_where_none(list, around(cwd@));
    }
    Ok(out)
}

/// Drop a stack from the record.
pub fn drop_stack(file: &mut StackFile, stack_index: usize)
    requires
        stack_index < old(file).stacks@.len(),
    ensures
        final(file)@ == (StackFileView {
            stacks: old(file)@.stacks.remove(stack_index as int),
            ..old(file)@
        }),
{
    let ghost before = stack_views(file.stacks@);
    file.stacks.remove(stack_index);
    assert(stack_views(file.stacks@) =~= before.remove(stack_index as int));
}

/// Unless forced, no worktree that is removed holds uncommitted changes.
pub proof fn law_removal_is_clean(list: Seq<FactsView>, cwd: Seq<char>, i: int)
    requires
        refusal(list, cwd, false) is None,
        0 <= i < list.len(),
        list[i].present,
    ensures
        list[i].clean == Ok::<bool, Fault>(true),
        !paths::under(cwd, list[i].path),
{
    seqs::lemma_first_where_is(list, unreadable());
    seqs::lemma_first_where_is(list, around(cwd));
    seqs::lemma_filter_all(list, dirty());
    assert(!unreadable()(list[i]));
    assert(!around(cwd)(list[i]));
    if dirty()(list[i]) {
        assert(list.filter(dirty()).contains(list[i]));
        assert(list.filter(dirty()).len() > 0);
    }
    assert(list[i].clean is Ok);
    assert(list[i].clean->Ok_0);
}

/// Dropping a stack keeps every branch of the others in one stack, once, and
/// no stack holds a branch of the one dropped.
pub proof fn law_removal_tracks_once(stacks: Seq<StackView>, k: int)
    requires
        stacks_disjoint(stacks),
        0 <= k < stacks.len(),
    ensures
        stacks_disjoint(stacks.remove(k)),
        forall|i: int|
            0 <= i < stacks[k].branches.len() ==> unheld(
                stacks.remove(k),
                (#[trigger] stacks[k].branches[i]).branch,
            ),
{
    let after = stacks.remove(k);
    assert forall|p: int, i: int, q: int, j: int|
        #![trigger after[p].branches[i], after[q].branches[j]]
        0 <= p < after.len() && 0 <= i < after[p].branches.len() && 0 <= q < after.len() && 0 <= j
            < after[q].branches.len() && after[p].branches[i].branch
            == after[q].branches[j].branch implies p == q && i == j by {
        let a = if p < k {
            p
        } else {
            p + 1
        };
        let b = if q < k {
            q
        } else {
            q + 1
        };
        assert(stacks[a].branches[i] == after[p].branches[i]);
        assert(stacks[b].branches[j] == after[q].branches[j]);
    }
    assert forall|i: int| 0 <= i < stacks[k].branches.len() implies unheld(
        after,
        (#[trigger] stacks[k].branches[i]).branch,
    ) by {
        let name = stacks[k].branches[i].branch;
        assert forall|q: int| 0 <= q < after.len() implies !(#[trigger] after[q]).has(name) by {
            let b = if q < k {
                q
            } else {
                q + 1
            };
            assert(after[q] == stacks[b]);
            if after[q].has(name) {
                let j = choose|j: int|
                    0 <= j < stacks[b].branches.len() && (#[trigger] stacks[b].branches[j]).branch
                        == name;
                assert(stacks[b].branches[j].branch == stacks[k].branches[i].branch);
            }
        }
    }
}

/// A stack can be removed exactly where the command runs in none of its
/// worktrees and, unless removal is forced, git can tell of each that is there
/// that it is clean.
pub proof fn law_refused_for_cause(list: Seq<FactsView>, cwd: Seq<char>, force: bool)
    ensures
        refusal(list, cwd, force) is None <==> (forall|i: int|
            0 <= i < list.len() ==> !paths::under(cwd, (#[trigger] list[i]).path)) && (force
            || forall|i: int|
            0 <= i < list.len() && (#[trigger] list[i]).present ==> list[i].clean == Ok::<
                bool,
                Fault,
            >(true)),
{
    seqs::lemma_first_where_is(list, unreadable());
    seqs::lemma_first_where_is(list, around(cwd));
    seqs::lemma_filter_all(list, dirty());
    if refusal(list, cwd, force) is None {
        assert forall|i: int| 0 <= i < list.len() implies !paths::under(
            cwd,
            (#[trigger] list[i]).path,
        ) by {
            assert(!around(cwd)(list[i]));
        }
        if !force {
            assert forall|i: int| 0 <= i < list.len() && (
            #[trigger] list[i]).present implies list[i].clean == Ok::<bool, Fault>(true) by {
                law_removal_is_clean(list, cwd, i);
            }
        }
    } else if let Some(k) = seqs::first_where(list, unreadable()) {
        assert(unreadable()(list[k]));
        if force {
            let j = seqs::first_where(list, around(cwd))->0;
            assert(around(cwd)(list[j]));
        }
    } else if !force && list.filter(dirty()).len() > 0 {
        let w = list.filter(dirty())[0];
        assert(dirty()(w));
        let k = choose|k: int| 0 <= k < list.len() && list[k] == w;
        assert(list[k].present);
    } else {
        let j = seqs::first_where(list, around(cwd))->0;
        assert(around(cwd)(list[j]));
    }
}

/// The worktrees that go with a stack are those that are there and have a branch
/// of it checked out, and all of them.
pub proof fn law_worktrees_go_with_stack(all: Seq<FactsView>, stack: StackView, w: FactsView)
    ensures
        all.filter(ours(stack)).filter(present()).contains(w) <==> all.contains(w) && w.present
            && exists|i: int|
            0 <= i < stack.branches.len() && (#[trigger] stack.branches[i]).branch == w.branch,
{
    let list = all.filter(ours(stack));
    seqs::lemma_filter_all(all, ours(stack));
    seqs::lemma_filter_all(list, present());
    if list.filter(present()).contains(w) {
        let k = choose|k: int| 0 <= k < list.filter(present()).len() && list.filter(present())[k] == w;
        assert(present()(w) && list.contains(w));
        let m = choose|m: int| 0 <= m < list.len() && list[m] == w;
        assert(ours(stack)(list[m]) && all.contains(list[m]));
    }
    if all.contains(w) && w.present && stack.has(w.branch) {
        let k = choose|k: int| 0 <= k < all.len() && all[k] == w;
        assert(ours(stack)(all[k]));
        assert(list.contains(w));
        let m = choose|m: int| 0 <= m < list.len() && list[m] == w;
        assert(present()(list[m]));
    }
}

/// The paths of a list of worktrees are theirs, in order.
pub proof fn law_paths_are_theirs(list: Seq<FactsView>, i: int)
    requires
        0 <= i < list.len(),
    ensures
        paths_of(list).len() == list.len(),
        paths_of(list)[i] == list[i].path,
{
}

} // verus!
