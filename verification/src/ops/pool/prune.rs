//! `pool prune`: drop the branches whose pull requests are merged.

use vstd::prelude::*;

use crate::domain::error::{Fault, StackError};
use crate::domain::pool::{PoolBranchView, PoolFile, PoolFileView, PoolView};
use crate::github::{GitHub, HubEvent};
use crate::ops::pool::refresh::{
    all_events, complete, drop_merged, failure, merged_ones, names_of, refresh_pool,
    refreshed_pool, refreshes, unmerged, BranchTalk,
};
use crate::ops::pool::{chosen_pool, resolve_pool_index};
use crate::seqs;
use crate::style;
use crate::style::glyph;
use crate::text;

verus! {

#[derive(Debug)]
pub struct PruneArgs {
    pub pool: Option<String>,
    pub dry_run: bool,
    pub no_refresh: bool,
}

/// Which pools are pruned: the one named, or every pool.
pub fn targets(file: &PoolFile, name: Option<&str>) -> (r: Result<Vec<usize>, StackError>)
    ensures
        match name {
            Some(n) => match chosen_pool(file@, Some(n@)) {
                Ok(i) => r matches Ok(list) && list@.len() == 1 && list@[0] == i && i
                    < file.pools@.len(),
                Err(f) => r matches Err(e) && e@ == f,
            },
            None => r matches Ok(list) && list@ == Seq::new(
                file.pools@.len(),
                |i: int| i as usize,
            ),
        },
{
    match name {
        Some(n) => match resolve_pool_index(file, Some(n)) {
            Ok(i) => {
                let mut list: Vec<usize> = Vec::new();
                list.push(i);
                Ok(list)
            },
            Err(e) => Err(e),
        },
        None => {
            let mut list: Vec<usize> = Vec::new();
            let n: usize = file.pools.len();
            let mut i: usize = 0;
            while i < n
                invariant
                    i <= n,
                    n == file.pools@.len(),
                    list@ == Seq::new(i as nat, |k: int| k as usize),
                decreases n - i,
            {
                list.push(i);
                i = i + 1;
                assert(list@ =~= Seq::new(i as nat, |k: int| k as usize));
            }
            Ok(list)
        },
    }
}

/// The file after the pools at `targets` were refreshed in turn.
pub open spec fn refreshed(
    before: PoolFileView,
    targets: Seq<usize>,
    runs: Seq<Seq<BranchTalk>>,
    now: Seq<char>,
) -> PoolFileView
    decreases runs.len(),
{
    if runs.len() == 0 {
        before
    } else {
        let mid = refreshed(before, targets, runs.drop_last(), now);
        let k = targets[runs.len() - 1] as int;
        PoolFileView {
            pools: mid.pools.update(k, refreshed_pool(runs.last(), mid.pools[k], now)),
            ..mid
        }
    }
}

/// The pool that the last of `runs` refreshes, as that run finds it.
pub open spec fn last_pool(
    before: PoolFileView,
    targets: Seq<usize>,
    runs: Seq<Seq<BranchTalk>>,
    now: Seq<char>,
) -> PoolView {
    refreshed(before, targets, runs.drop_last(), now).pools[targets[runs.len() - 1] as int]
}

/// Whether each of `runs` is a whole refresh of its pool, and none comes after
/// one that failed.
pub open spec fn runs_follow(
    before: PoolFileView,
    targets: Seq<usize>,
    runs: Seq<Seq<BranchTalk>>,
    now: Seq<char>,
) -> bool
    decreases runs.len(),
{
    if runs.len() == 0 {
        true
    } else {
        &&& runs_follow(before, targets, runs.drop_last(), now)
        &&& run_fault(before, targets, runs.drop_last(), now) is None
        &&& complete(runs.last(), last_pool(before, targets, runs, now).branches)
    }
}

/// Why the last of `runs` failed.
pub open spec fn run_fault(
    before: PoolFileView,
    targets: Seq<usize>,
    runs: Seq<Seq<BranchTalk>>,
    now: Seq<char>,
) -> Option<Fault> {
    if runs.len() == 0 {
        None
    } else {
        failure(runs.last(), last_pool(before, targets, runs, now).branches)
    }
}

/// What was asked in `runs`.
pub open spec fn run_events(runs: Seq<Seq<BranchTalk>>) -> Seq<HubEvent>
    decreases runs.len(),
{
    if runs.len() == 0 {
        Seq::empty()
    } else {
        run_events(runs.drop_last()) + all_events(runs.last())
    }
}

/// Whether `runs` refresh the pools at `targets`, turn one file into the other
/// and come to `r`.
pub open spec fn refreshes_targets(
    runs: Seq<Seq<BranchTalk>>,
    before: PoolFileView,
    targets: Seq<usize>,
    now: Seq<char>,
    after: PoolFileView,
    r: Result<(), StackError>,
) -> bool {
    &&& runs.len() <= targets.len()
    &&& runs_follow(before, targets, runs, now)
    &&& after == refreshed(before, targets, runs, now)
    &&& match run_fault(before, targets, runs, now) {
        Some(f) => r matches Err(e) && e@ == f,
        None => r is Ok && runs.len() == targets.len(),
    }
}

/// Refresh the pools at `targets`, up to the first that fails.
pub fn refresh_targets<H: GitHub>(
    gh: &mut H,
    file: &mut PoolFile,
    targets: &Vec<usize>,
    now: &str,
) -> (r: Result<(), StackError>)
    requires
        forall|k: int| 0 <= k < targets@.len() ==> #[trigger] targets@[k] < old(file).pools@.len(),
    ensures
        exists|runs: Seq<Seq<BranchTalk>>|
            #[trigger] refreshes_targets(runs, old(file)@, targets@, now@, final(file)@, r)
                && final(gh).history() == old(gh).history() + run_events(runs),
{
    let ghost before = file@;
    let ghost start = gh.history();
    let ghost mut runs: Seq<Seq<BranchTalk>> = Seq::empty();
    let mut i: usize = 0;
    assert(gh.history() =~= start + run_events(runs));
    while i < targets.len()
        invariant
            i <= targets@.len(),
            runs.len() == i,
            before == old(file)@,
            start == old(gh).history(),
            file.pools@.len() == before.pools.len(),
            forall|k: int|
                0 <= k < targets@.len() ==> #[trigger] targets@[k] < before.pools.len(),
            runs_follow(before, targets@, runs, now@),
            run_fault(before, targets@, runs, now@) is None,
            file@ == refreshed(before, targets@, runs, now@),
            gh.history() == start + run_events(runs),
        decreases targets.len() - i,
    {
        let ghost mid = file@;
        let ghost asked = gh.history();
        let outcome = refresh_pool(gh, file, targets[i], now);
        let ghost talks = choose|talks: Seq<BranchTalk>|
            #[trigger] refreshes(talks, mid, targets@[i as int] as int, now@, file@, outcome)
                && gh.history() == asked + all_events(talks);
        let ghost more = runs.push(talks);
        proof {
            assert(more.drop_last() =~= runs);
            assert(gh.history() =~= start + run_events(more));
            assert(file@.pools.len() == mid.pools.len());
        }
        match outcome {
            Err(e) => {
                assert(refreshes_targets(more, before, targets@, now@, file@, Err(e)));
                return Err(e);
            },
            Ok(_) => {},
        }
        proof {
            runs = more;
        }
        i = i + 1;
    }
    assert(refreshes_targets(runs, before, targets@, now@, file@, Ok(())));
    Ok(())
}

/// A pool without its merged branches.
pub open spec fn pruned_pool(pool: PoolView) -> PoolView {
    PoolView { branches: pool.branches.filter(unmerged()), ..pool }
}

/// The file after the pools at `targets` were pruned in turn.
pub open spec fn pruned(file: PoolFileView, targets: Seq<usize>) -> PoolFileView
    decreases targets.len(),
{
    if targets.len() == 0 {
        file
    } else {
        let mid = pruned(file, targets.drop_last());
        let k = targets.last() as int;
        PoolFileView { pools: mid.pools.update(k, pruned_pool(mid.pools[k])), ..mid }
    }
}

/// The line that names a dropped branch.
pub open spec fn name_line(name: Seq<char>, on: bool) -> Seq<char> {
    "  "@ + style::dim_of("○"@, on) + "  "@ + name
}

/// What is reported of one pool: nothing where no branch is merged.
pub open spec fn pool_report(pool: PoolView, dry_run: bool, on: bool) -> Seq<Seq<char>> {
    let names = names_of(pool.branches.filter(merged_ones()));
    if names.len() == 0 {
        Seq::empty()
    } else {
        seq![
            (if dry_run {
                "would drop "@
            } else {
                "✓ dropped "@
            }) + text::decimal(names.len()) + " branch(es) from pool "@ + pool.label() + ":"@,
        ] + names.map_values(|n: Seq<char>| name_line(n, on))
    }
}

/// What is reported of the pools at `targets`. A dry run drops nothing.
pub open spec fn reports(
    file: PoolFileView,
    targets: Seq<usize>,
    dry_run: bool,
    on: bool,
) -> Seq<Seq<char>>
    decreases targets.len(),
{
    if targets.len() == 0 {
        Seq::empty()
    } else {
        let rest = targets.drop_last();
        let seen = if dry_run {
            file
        } else {
            pruned(file, rest)
        };
        reports(file, rest, dry_run, on) + pool_report(
            seen.pools[targets.last() as int],
            dry_run,
            on,
        )
    }
}

/// The names of the merged branches of a pool.
fn merged_names(file: &PoolFile, index: usize) -> (r: Vec<String>)
    requires
        index < file.pools@.len(),
    ensures
        text::views(r@) == names_of(file@.pools[index as int].branches.filter(merged_ones())),
{
    let ghost all = file@.pools[index as int].branches;
    let list = &file.pools[index].branches;
    assert(all == crate::domain::pool::branch_views(list@));
    let mut out: Vec<String> = Vec::new();
    let mut i: usize = 0;
    assert(text::views(out@) =~= names_of(all.take(0).filter(merged_ones()))) by {
        reveal(Seq::filter);
    }
    while i < list.len()
        invariant
            i <= list@.len(),
            all == crate::domain::pool::branch_views(list@),
            text::views(out@) == names_of(all.take(i as int).filter(merged_ones())),
        decreases list.len() - i,
    {
        proof {
            seqs::lemma_filter_step(all, i as int, merged_ones());
            assert(all[i as int] == list@[i as int]@);
        }
        let ghost before = text::views(out@);
        let ghost gone = all.take(i as int).filter(merged_ones());
        if list[i].is_merged() {
            out.push(list[i].branch.clone());
            assert(text::views(out@) =~= before.push(all[i as int].branch));
            assert(names_of(gone.push(all[i as int])) =~= names_of(gone).push(
                all[i as int].branch,
            ));
        }
        i = i + 1;
    }
    assert(all.take(list.len() as int) =~= all);
    out
}

/// Report one pool.
fn report_pool(file: &PoolFile, index: usize, dry_run: bool, on: bool, out: &mut Vec<String>)
    requires
        index < file.pools@.len(),
    ensures
        text::views(final(out)@) == text::views(old(out)@) + pool_report(
            file@.pools[index as int],
            dry_run,
            on,
        ),
{
    let names = merged_names(file, index);
    let ghost pool = file@.pools[index as int];
    let ghost nv = text::views(names@);
    let ghost start = text::views(out@);
    assert(pool == file.pools@[index as int]@);
    assert(nv.len() == names@.len());
    if names.len() == 0 {
        assert(start + pool_report(pool, dry_run, on) =~= start);
        return ;
    }
    let ghost f = |n: Seq<char>| name_line(n, on);
    let mut head = text::cat3(
        if dry_run {
            "would drop "
        } else {
            "✓ dropped "
        },
        text::to_decimal(names.len() as u64).as_str(),
        " branch(es) from pool ",
    );
    head.append(file.pools[index].display_label());
    head.append(":");
    let ghost line = head@;
    out.push(head);
    assert(text::views(out@) =~= start.push(line));
    let mut i: usize = 0;
    assert(text::views(out@) =~= start + seq![line] + nv.map_values(f).take(0));
    while i < names.len()
        invariant
            i <= names@.len(),
            nv == text::views(names@),
            f == (|n: Seq<char>| name_line(n, on)),
            text::views(out@) == start + seq![line] + nv.map_values(f).take(i as int),
        decreases names.len() - i,
    {
        let ghost before = text::views(out@);
        assert(nv[i as int] == names@[i as int]@);
        let mut row = text::cat3("  ", style::dim(glyph::ACTIVE, on).as_str(), "  ");
        row.append(names[i].as_str());
        let ghost model = row@;
        out.push(row);
        assert(text::views(out@) =~= before.push(model));
        assert(model =~= f(nv[i as int]));
        assert(text::views(out@) =~= start + seq![line] + nv.map_values(f).take(i + 1));
        i = i + 1;
    }
    assert(nv.map_values(f).take(names.len() as int) =~= nv.map_values(f));
    assert(text::views(out@) =~= start + pool_report(pool, dry_run, on));
}

/// Drop the merged branches from the pools at `targets`, unless this is a dry
/// run. Returns what to report.
pub fn prune(file: &mut PoolFile, targets: &Vec<usize>, dry_run: bool, on: bool) -> (r: Vec<
    String,
>)
    requires
        forall|k: int| 0 <= k < targets@.len() ==> #[trigger] targets@[k] < old(file).pools@.len(),
    ensures
        final(file)@ == (if dry_run {
            old(file)@
        } else {
            pruned(old(file)@, targets@)
        }),
        text::views(r@) == (if reports(old(file)@, targets@, dry_run, on).len() == 0 {
            seq!["✓ no merged branches to prune"@]
        } else {
            reports(old(file)@, targets@, dry_run, on)
        }),
{
    let ghost before = file@;
    let ghost all = targets@;
    let mut out: Vec<String> = Vec::new();
    let mut i: usize = 0;
    assert(all.take(0) =~= Seq::<usize>::empty());
    assert(text::views(out@) =~= reports(before, all.take(0), dry_run, on));
    while i < targets.len()
        invariant
            i <= targets@.len(),
            all == targets@,
            before == old(file)@,
            file.pools@.len() == before.pools.len(),
            forall|k: int| 0 <= k < targets@.len() ==> #[trigger] targets@[k] < before.pools.len(),
            file@ == (if dry_run {
                before
            } else {
                pruned(before, all.take(i as int))
            }),
            text::views(out@) == reports(before, all.take(i as int), dry_run, on),
        decreases targets.len() - i,
    {
        let k: usize = targets[i];
        let ghost upto = all.take(i + 1);
        proof {
            assert(upto.drop_last() =~= all.take(i as int));
            assert(upto.last() == k);
        }
        report_pool(file, k, dry_run, on, &mut out);
        if !dry_run {
            let _ = drop_merged(file, k);
            assert(file@.pools.len() == before.pools.len());
        }
        i = i + 1;
    }
    assert(all.take(targets.len() as int) =~= all);
    assert(text::views(out@).len() == out@.len());
    if out.len() == 0 {
        out.push("✓ no merged branches to prune".to_string());
        assert(text::views(out@) =~= seq!["✓ no merged branches to prune"@]);
    }
    out
}

/// Whether the pool at `i` is one of the targets.
pub open spec fn aimed(targets: Seq<usize>, i: int) -> bool {
    exists|k: int| 0 <= k < targets.len() && (#[trigger] targets[k]) == i
}

/// Pruning leaves, of every pool pruned, exactly the branches that are not
/// merged, in order; the other pools are as they were.
pub proof fn law_prune_drops_merged(file: PoolFileView, targets: Seq<usize>)
    requires
        forall|k: int| 0 <= k < targets.len() ==> #[trigger] targets[k] < file.pools.len(),
    ensures
        pruned(file, targets).pools.len() == file.pools.len(),
        forall|i: int|
            #![trigger pruned(file, targets).pools[i]]
            0 <= i < file.pools.len() ==> pruned(file, targets).pools[i] == (if aimed(targets, i) {
                pruned_pool(file.pools[i])
            } else {
                file.pools[i]
            }),
    decreases targets.len(),
{
    if targets.len() > 0 {
        let rest = targets.drop_last();
        assert forall|k: int| 0 <= k < rest.len() implies #[trigger] rest[k] < file.pools.len() by {
            assert(rest[k] == targets[k]);
        }
        law_prune_drops_merged(file, rest);
        let mid = pruned(file, rest);
        let last = targets.last();
        assert(last == targets[targets.len() - 1]);
        assert forall|i: int|
            #![trigger pruned(file, targets).pools[i]]
            0 <= i < file.pools.len() implies pruned(file, targets).pools[i] == (if aimed(
            targets,
            i,
        ) {
            pruned_pool(file.pools[i])
        } else {
            file.pools[i]
        }) by {
            assert(mid.pools[i] == (if aimed(rest, i) {
                pruned_pool(file.pools[i])
            } else {
                file.pools[i]
            }));
            if aimed(rest, i) {
                let k = choose|k: int| 0 <= k < rest.len() && (#[trigger] rest[k]) == i;
                assert(targets[k] == i);
            }
            if i == last {
                let once = file.pools[i].branches.filter(unmerged());
                seqs::lemma_filter_all(file.pools[i].branches, unmerged());
                seqs::lemma_filter_id(once, unmerged());
                assert(pruned_pool(pruned_pool(file.pools[i])) =~= pruned_pool(file.pools[i]));
            } else if aimed(targets, i) {
                let k = choose|k: int| 0 <= k < targets.len() && (#[trigger] targets[k]) == i;
                assert(rest[k] == i);
            }
        }
    }
}

/// What is left of a pool that is pruned: a branch stays exactly where its pull
/// request is not merged. Its name, trunk and timestamp stay.
pub proof fn law_pruned_keeps_unmerged(pool: PoolView)
    ensures
        forall|b: PoolBranchView| #[trigger]
            pruned_pool(pool).branches.contains(b) <==> pool.branches.contains(b) && !(
            b.pull_request matches Some(p) && p.merged),
        pruned_pool(pool).name == pool.name,
        pruned_pool(pool).trunk == pool.trunk,
        pruned_pool(pool).last_refreshed_at == pool.last_refreshed_at,
{
    seqs::lemma_filter_all(pool.branches, unmerged());
    assert forall|b: PoolBranchView| #[trigger]
        pruned_pool(pool).branches.contains(b) implies pool.branches.contains(b) && !(
    b.pull_request matches Some(p) && p.merged) by {
        assert(unmerged()(b));
    }
    assert forall|b: PoolBranchView|
        pool.branches.contains(b) && !(b.pull_request matches Some(p)
            && p.merged) implies #[trigger] pruned_pool(pool).branches.contains(b) by {
        assert(unmerged()(b));
    }
}

/// A report names exactly the branches of the pool whose pull requests are
/// merged, one a line below a heading with their number, and is empty where there
/// is none.
pub proof fn law_report_names_merged(pool: PoolView, dry_run: bool, on: bool)
    ensures
        ({
            let lines = pool_report(pool, dry_run, on);
            &&& lines.len() == 0 <==> forall|b: PoolBranchView| #[trigger]
                pool.branches.contains(b) ==> !(b.pull_request matches Some(p) && p.merged)
            &&& forall|b: PoolBranchView| #[trigger]
                pool.branches.contains(b) && (b.pull_request matches Some(p) && p.merged)
                    ==> lines.contains(name_line(b.branch, on))
            &&& lines.len() > 0 ==> lines[0] == (if dry_run {
                "would drop "@
            } else {
                "✓ dropped "@
            }) + text::decimal((lines.len() - 1) as nat) + " branch(es) from pool "@
                + pool.label() + ":"@
        }),
{
    let gone = pool.branches.filter(merged_ones());
    let names = names_of(gone);
    let lines = pool_report(pool, dry_run, on);
    seqs::lemma_filter_all(pool.branches, merged_ones());
    assert forall|b: PoolBranchView| #[trigger]
        pool.branches.contains(b) && (b.pull_request matches Some(p)
            && p.merged) implies lines.contains(name_line(b.branch, on)) by {
        assert(merged_ones()(b));
        assert(gone.contains(b));
        let k = choose|k: int| 0 <= k < gone.len() && gone[k] == b;
        assert(names[k] == b.branch);
        assert(lines[k + 1] == name_line(b.branch, on));
    }
    if lines.len() > 0 {
        let b = gone[0];
        assert(gone.contains(b));
        assert(merged_ones()(b));
        assert(pool.branches.contains(b));
    } else {
        assert forall|b: PoolBranchView| #[trigger] pool.branches.contains(b) implies !(
        b.pull_request matches Some(p) && p.merged) by {
            if b.pull_request matches Some(p) && p.merged {
                assert(merged_ones()(b));
                assert(gone.contains(b));
            }
        }
    }
}

} // verus!
