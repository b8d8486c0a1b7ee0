//! `stack prune`: drop the stacks whose every branch is merged.

use vstd::prelude::*;

use crate::domain::stack::{
    stack_views, Stack, StackFile, StackFileView, StackView,
};
use crate::ops::add::stacks_disjoint;
use crate::seqs;
use crate::text;

verus! {

#[derive(Debug)]
pub struct PruneArgs {
    pub dry_run: bool,
    pub no_refresh: bool,
    pub force: bool,
}

/// Whether a stack has branches, and every one is merged.
pub open spec fn fully_merged(s: StackView) -> bool {
    s.branches.len() > 0 && forall|i: int|
        0 <= i < s.branches.len() ==> (#[trigger] s.branches[i]).is_merged()
}

/// Whether a stack has branches, and every one is merged.
pub fn is_fully_merged(stack: &Stack) -> (r: bool)
    ensures
        r == fully_merged(stack@),
{
    let n: usize = stack.branches.len();
    if n == 0 {
        return false;
    }
    let mut i: usize = 0;
    while i < n
        invariant
            i <= n,
            n == stack.branches@.len(),
            forall|j: int| 0 <= j < i ==> (#[trigger] stack@.branches[j]).is_merged(),
        decreases n - i,
    {
        assert(stack@.branches[i as int] == stack.branches@[i as int]@);
        if !stack.branches[i].is_merged() {
            return false;
        }
        i = i + 1;
    }
    true
}

/// The stacks that stay.
pub open spec fn staying() -> spec_fn(StackView) -> bool {
    |s: StackView| !fully_merged(s)
}

/// Whether these are the places of the stacks to drop, lowest first.
pub open spec fn places(stacks: Seq<StackView>, list: Seq<usize>, n: int) -> bool {
    &&& forall|k: int|
        0 <= k < list.len() ==> (#[trigger] list[k]) < n && fully_merged(stacks[list[k] as int])
    &&& forall|j: int, k: int|
        0 <= j < k < list.len() ==> (#[trigger] list[j]) < (#[trigger] list[k])
    &&& forall|i: int|
        0 <= i < n && fully_merged(#[trigger] stacks[i]) ==> exists|k: int|
            0 <= k < list.len() && (#[trigger] list[k]) == i
}

/// Where the stacks to drop stand, lowest first.
pub fn prune_targets(file: &StackFile) -> (r: Vec<usize>)
    ensures
        places(file@.stacks, r@, file@.stacks.len() as int),
{
    let ghost all = file@.stacks;
    let mut out: Vec<usize> = Vec::new();
    let mut i: usize = 0;
    while i < file.stacks.len()
        invariant
            i <= file.stacks@.len(),
            all == stack_views(file.stacks@),
            places(all, out@, i as int),
        decreases file.stacks.len() - i,
    {
        assert(all[i as int] == file.stacks@[i as int]@);
        let ghost before = out@;
        if is_fully_merged(&file.stacks[i]) {
            out.push(i);
        }
        proof {
            assert forall|m: int| 0 <= m < i + 1 && fully_merged(#[trigger] all[m]) implies exists|
                k: int,
            |
                0 <= k < out@.len() && (#[trigger] out@[k]) == m by {
                if m < i {
                    let k = choose|k: int| 0 <= k < before.len() && (#[trigger] before[k]) == m;
                    assert(out@[k] == m);
                } else {
                    assert(out@[out@.len() - 1] == m);
                }
            }
        }
        i = i + 1;
    }
    out
}

/// Drop every stack whose every branch is merged; the others stay, in order.
pub fn drop_merged_stacks(file: &mut StackFile)
    ensures
        final(file)@ == (StackFileView {
            stacks: old(file)@.stacks.filter(staying()),
            ..old(file)@
        }),
{
    let ghost all = stack_views(file.stacks@);
    let mut kept: Vec<Stack> = Vec::new();
    let total: usize = file.stacks.len();
    let mut i: usize = 0;
    assert(stack_views(kept@) =~= all.take(0).filter(staying())) by {
        reveal(Seq::filter);
    }
    while i < total
        invariant
            i <= total,
            total == file.stacks@.len(),
            all == stack_views(file.stacks@),
            stack_views(kept@) == all.take(i as int).filter(staying()),
        decreases total - i,
    {
        proof {
            seqs::lemma_filter_step(all, i as int, staying());
        }
        let ghost before = stack_views(kept@);
        assert(all[i as int] == file.stacks@[i as int]@);
        if !is_fully_merged(&file.stacks[i]) {
            kept.push(file.stacks[i].clone());
            assert(stack_views(kept@) =~= before.push(all[i as int]));
        }
        i = i + 1;
    }
    assert(all.take(total as int) =~= all);
    file.stacks = kept;
}

/// What a stack is called: its prefix.
pub open spec fn label_of(stack: StackView) -> Seq<char> {
    match stack.prefix {
        Some(p) => p,
        None => "(no prefix)"@,
    }
}

/// What a stack is called: its prefix.
pub fn stack_label(stack: &Stack) -> (r: &str)
    ensures
        r@ == label_of(stack@),
{
    match &stack.prefix {
        Some(p) => p.as_str(),
        None => "(no prefix)",
    }
}

/// The lines that report a stack dropped, with the worktrees removed.
pub open spec fn dropped_text(label: Seq<char>, removed: Seq<Seq<char>>, dry_run: bool) -> Seq<
    Seq<char>,
> {
    seq![
        (if dry_run {
            "would drop stack "@
        } else {
            "✓ dropped stack "@
        }) + label,
    ] + removed.map_values(
        |p: Seq<char>|
            (if dry_run {
                "  ↳ would remove worktree "@
            } else {
                "  ↳ removed worktree "@
            }) + p,
    )
}

/// The lines that report a stack dropped, with the worktrees removed.
pub fn dropped_lines(stack: &Stack, removed: &Vec<String>, dry_run: bool) -> (r: Vec<String>)
    ensures
        text::views(r@) == dropped_text(label_of(stack@), text::views(removed@), dry_run),
{
    let ghost list = text::views(removed@);
    let verb = if dry_run {
        "would drop stack "
    } else {
        "✓ dropped stack "
    };
    let each = if dry_run {
        "  ↳ would remove worktree "
    } else {
        "  ↳ removed worktree "
    };
    let ghost f = |p: Seq<char>|
        (if dry_run {
            "  ↳ would remove worktree "@
        } else {
            "  ↳ removed worktree "@
        }) + p;
    let mut out: Vec<String> = Vec::new();
    out.push(text::cat(verb, stack_label(stack)));
    let ghost head = text::views(out@);
    let mut i: usize = 0;
    assert(text::views(out@) =~= head + list.map_values(f).take(0));
    while i < removed.len()
        invariant
            i <= removed@.len(),
            list == text::views(removed@),
            each@ == (if dry_run {
                "  ↳ would remove worktree "@
            } else {
                "  ↳ removed worktree "@
            }),
            f == (|p: Seq<char>|
                (if dry_run {
                    "  ↳ would remove worktree "@
                } else {
                    "  ↳ removed worktree "@
                }) + p),
            text::views(out@) == head + list.map_values(f).take(i as int),
        decreases removed.len() - i,
    {
        let ghost before = text::views(out@);
        assert(list[i as int] == removed@[i as int]@);
        let line = text::cat(each, removed[i].as_str());
        let ghost model = line@;
        out.push(line);
        assert(text::views(out@) =~= before.push(model));
        assert(text::views(out@) =~= head + list.map_values(f).take(i + 1));
        i = i + 1;
    }
    assert(list.map_values(f).take(removed.len() as int) =~= list.map_values(f));
    assert(text::views(out@) =~= dropped_text(label_of(stack@), list, dry_run));
    out
}

/// Pruning drops exactly the stacks whose every branch is merged, and a second
/// pruning drops nothing.
pub proof fn law_prune_drops_merged(stacks: Seq<StackView>)
    ensures
        forall|i: int|
            0 <= i < stacks.filter(staying()).len() ==> !fully_merged(
                #[trigger] stacks.filter(staying())[i],
            ),
        forall|i: int|
            0 <= i < stacks.len() && !fully_merged(#[trigger] stacks[i]) ==> stacks.filter(
                staying(),
            ).contains(stacks[i]),
        stacks.filter(staying()).filter(staying()) == stacks.filter(staying()),
{
    let kept = stacks.filter(staying());
    seqs::lemma_filter_all(stacks, staying());
    seqs::lemma_filter_id(kept, staying());
    assert forall|i: int| 0 <= i < kept.len() implies !fully_merged(#[trigger] kept[i]) by {
        assert(staying()(kept[i]));
    }
    assert forall|i: int| 0 <= i < stacks.len() && !fully_merged(
        #[trigger] stacks[i],
    ) implies kept.contains(stacks[i]) by {
        assert(staying()(stacks[i]));
    }
}

/// Pruning keeps every branch in one stack, once.
pub proof fn law_prune_tracks_once(stacks: Seq<StackView>)
    requires
        stacks_disjoint(stacks),
    ensures
        stacks_disjoint(stacks.filter(staying())),
    decreases stacks.len(),
{
    reveal(Seq::filter);
    if stacks.len() > 0 {
        let rest = stacks.drop_last();
        let last = stacks.last();
        assert forall|p: int, i: int, q: int, j: int|
            #![trigger rest[p].branches[i], rest[q].branches[j]]
            0 <= p < rest.len() && 0 <= i < rest[p].branches.len() && 0 <= q < rest.len() && 0 <= j
                < rest[q].branches.len() && rest[p].branches[i].branch
                == rest[q].branches[j].branch implies p == q && i == j by {
            assert(rest[p].branches[i] == stacks[p].branches[i]);
            assert(rest[q].branches[j] == stacks[q].branches[j]);
        }
        law_prune_tracks_once(rest);
        let kept = rest.filter(staying());
        seqs::lemma_filter_all(rest, staying());
        if staying()(last) {
            let after = kept.push(last);
            let n = stacks.len() - 1;
            assert(stacks.filter(staying()) =~= after);
            assert forall|p: int, i: int, q: int, j: int|
                #![trigger after[p].branches[i], after[q].branches[j]]
                0 <= p < after.len() && 0 <= i < after[p].branches.len() && 0 <= q < after.len()
                    && 0 <= j < after[q].branches.len() && after[p].branches[i].branch
                    == after[q].branches[j].branch implies p == q && i == j by {
                if p < kept.len() && q < kept.len() {
                    assert(after[p].branches[i] == kept[p].branches[i]);
                    assert(after[q].branches[j] == kept[q].branches[j]);
                } else if p < kept.len() {
                    assert(rest.contains(kept[p]));
                    let k = rest.index_of(kept[p]);
                    assert(stacks[k].branches[i] == after[p].branches[i]);
                    assert(stacks[n].branches[j] == after[q].branches[j]);
                } else if q < kept.len() {
                    assert(rest.contains(kept[q]));
                    let k = rest.index_of(kept[q]);
                    assert(stacks[k].branches[j] == after[q].branches[j]);
                    assert(stacks[n].branches[i] == after[p].branches[i]);
                } else {
                    assert(stacks[n].branches[i] == after[p].branches[i]);
                    assert(stacks[n].branches[j] == after[q].branches[j]);
                }
            }
        } else {
            assert(stacks.filter(staying()) =~= kept);
        }
    }
}

/// The stacks that go are those that have branches and none of whose branches is
/// open: each has a pull request, and that is merged.
pub proof fn law_targets_are_merged(stacks: Seq<StackView>, list: Seq<usize>, i: int)
    requires
        places(stacks, list, stacks.len() as int),
        0 <= i < stacks.len(),
    ensures
        (exists|k: int| 0 <= k < list.len() && (#[trigger] list[k]) == i) <==> (
        stacks[i].branches.len() > 0 && forall|j: int|
            0 <= j < stacks[i].branches.len() ==> ((
            #[trigger] stacks[i].branches[j]).pull_request matches Some(p) && p.merged)),
        stacks.filter(staying()).contains(stacks[i]) <==> !(stacks[i].branches.len() > 0 && forall|
            j: int,
        |
            0 <= j < stacks[i].branches.len() ==> ((
            #[trigger] stacks[i].branches[j]).pull_request matches Some(p) && p.merged)),
{
    seqs::lemma_filter_all(stacks, staying());
    if fully_merged(stacks[i]) {
        assert forall|j: int| 0 <= j < stacks[i].branches.len() implies ((
        #[trigger] stacks[i].branches[j]).pull_request matches Some(p) && p.merged) by {
            assert(stacks[i].branches[j].is_merged());
        }
        if stacks.filter(staying()).contains(stacks[i]) {
            let k = choose|k: int|
                0 <= k < stacks.filter(staying()).len() && stacks.filter(staying())[k]
                    == stacks[i];
            assert(staying()(stacks.filter(staying())[k]));
        }
    } else {
        assert(staying()(stacks[i]));
    }
}

/// A stack that is dropped is told by its prefix, and every worktree that goes with
/// it by its path; a dry run only says what would be.
pub proof fn law_dropped_is_told(label: Seq<char>, removed: Seq<Seq<char>>, dry_run: bool, i: int)
    requires
        0 <= i < removed.len(),
    ensures
        ({
            let lines = dropped_text(label, removed, dry_run);
            &&& lines.len() == removed.len() + 1
            &&& text::has_part(lines[0], label) && text::has_part(lines[i + 1], removed[i])
            &&& dry_run ==> "would drop stack "@.is_prefix_of(lines[0])
            &&& !dry_run ==> "✓ dropped stack "@.is_prefix_of(lines[0])
        }),
{
    let lines = dropped_text(label, removed, dry_run);
    let verb = if dry_run {
        "would drop stack "@
    } else {
        "✓ dropped stack "@
    };
    let each = if dry_run {
        "  ↳ would remove worktree "@
    } else {
        "  ↳ removed worktree "@
    };
    text::lemma_part_whole(label);
    text::lemma_part_whole(removed[i]);
    text::lemma_part_right(verb, label, label);
    text::lemma_part_right(each, removed[i], removed[i]);
    assert(lines[0] == verb + label);
    assert(lines[i + 1] == each + removed[i]);
    assert(lines[0].subrange(0, verb.len() as int) =~= verb);
}

/// A stack is called by its prefix.
pub proof fn law_label_is_prefix(stack: StackView)
    ensures
        stack.prefix matches Some(p) ==> label_of(stack) == p,
{
}

} // verus!
