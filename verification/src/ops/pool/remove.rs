//! `pool remove`: drop a branch from its pool. The git branch is left alone,
//! and a pool that ends up empty is kept.

use vstd::prelude::*;

use crate::domain::error::StackError;
use crate::domain::pool::{branch_views, named, PoolFile, PoolFileView, PoolView};
use crate::ops::pool::{pool_of_branch, resolve_pool_index_for_branch};
use crate::seqs;

verus! {

/// The file without the first branch of this name in the pool at `index`.
pub open spec fn without_branch(
    file: PoolFileView,
    index: int,
    branch: Seq<char>,
) -> PoolFileView {
    let pool = file.pools[index];
    PoolFileView {
        pools: file.pools.update(
            index,
            PoolView { branches: pool.branches.remove(pool.position(branch)->0), ..pool },
        ),
        ..file
    }
}

/// Drop a branch from the pool that holds it. Returns what that pool is
/// called.
pub fn remove(file: &mut PoolFile, target: &str) -> (r: Result<String, StackError>)
    ensures
        match pool_of_branch(old(file)@, target@) {
            Ok(i) => {
                &&& r matches Ok(label) && label@ == old(file)@.pools[i].label()
                &&& final(file)@ == without_branch(old(file)@, i, target@)
            },
            Err(f) => {
                &&& r matches Err(e) && e@ == f
                &&& final(file)@ == old(file)@
            },
        },
{
    let ghost before = file@;
    let index = match resolve_pool_index_for_branch(file, target) {
        Err(e) => {
            return Err(e);
        },
        Ok(i) => i,
    };
    let ghost pool = before.pools[index as int];
    assert(pool == file.pools@[index as int]@);
    proof {
        crate::ops::pool::law_lookups_find(before, target@, target@);
        seqs::lemma_first_where_is(pool.branches, named(target@));
        let k = choose|k: int|
            0 <= k < pool.branches.len() && (#[trigger] pool.branches[k]).branch == target@;
        assert(named(target@)(pool.branches[k]));
    }
    let label = file.pools[index].display_label().to_string();
    if let Some(k) = file.pools[index].position(target) {
        let ghost list = branch_views(file.pools@[index as int].branches@);
        file.pools[index].branches.remove(k);
        assert(branch_views(file.pools@[index as int].branches@) =~= list.remove(k as int));
        assert(file@.pools =~= without_branch(before, index as int, target@).pools);
    }
    Ok(label)
}

/// A branch that was in one pool once is in no pool once it was removed.
pub proof fn law_removed_is_gone(
    stacks: crate::domain::stack::StackFileView,
    before: PoolFileView,
    branch: Seq<char>,
)
    requires
        crate::ops::pool::tracked_once(stacks, before),
        pool_of_branch(before, branch) is Ok,
    ensures
        without_branch(before, pool_of_branch(before, branch)->Ok_0, branch).position_containing(
            branch,
        ) is None,
{
    let i = pool_of_branch(before, branch)->Ok_0;
    crate::ops::pool::law_lookups_find(before, branch, branch);
    let pool = before.pools[i];
    seqs::lemma_first_where_is(pool.branches, named(branch));
    let w = choose|w: int|
        0 <= w < pool.branches.len() && (#[trigger] pool.branches[w]).branch == branch;
    assert(named(branch)(pool.branches[w]));
    let k = pool.position(branch)->0;
    let after = without_branch(before, i, branch);
    assert forall|p: int| 0 <= p < after.pools.len() implies !crate::domain::pool::holding(branch)(
        #[trigger] after.pools[p],
    ) by {
        if after.pools[p].has(branch) {
            let m = choose|m: int|
                0 <= m < after.pools[p].branches.len() && (
                #[trigger] after.pools[p].branches[m]).branch == branch;
            if p == i {
                let o = if m < k {
                    m
                } else {
                    m + 1
                };
                assert(after.pools[p].branches[m] == pool.branches[o]);
                assert(before.pools[i].branches[o].branch == before.pools[i].branches[k].branch);
            } else {
                assert(before.pools[p].has(branch));
            }
        }
    }
    seqs::lemma_first_where_none(after.pools, crate::domain::pool::holding(branch));
}

/// Removing a branch takes out one of that name, from a pool that holds it, and
/// leaves everything else as it was, in order.
pub proof fn law_removal_takes_one(before: PoolFileView, branch: Seq<char>, i: int) -> (k: int)
    requires
        pool_of_branch(before, branch) == Ok::<int, crate::domain::error::Fault>(i),
    ensures
        ({
            let after = without_branch(before, i, branch);
            let was = before.pools[i];
            let is = after.pools[i];
            &&& 0 <= i < before.pools.len()
            &&& after.pools.len() == before.pools.len()
            &&& 0 <= k < was.branches.len()
            &&& was.branches[k].branch == branch
            &&& is.branches == was.branches.take(k) + was.branches.skip(k + 1)
            &&& is.name == was.name && is.trunk == was.trunk && is.last_refreshed_at
                == was.last_refreshed_at
            &&& forall|p: int|
                0 <= p < before.pools.len() && p != i ==> #[trigger] after.pools[p]
                    == before.pools[p]
            &&& after.schema_version == before.schema_version && after.repository
                == before.repository
        }),
{
    crate::ops::pool::law_lookups_find(before, branch, branch);
    let pool = before.pools[i];
    seqs::lemma_first_where_is(pool.branches, named(branch));
    let w = choose|w: int|
        0 <= w < pool.branches.len() && (#[trigger] pool.branches[w]).branch == branch;
    assert(named(branch)(pool.branches[w]));
    let k = pool.position(branch)->0;
    assert(named(branch)(pool.branches[k]));
    let after = without_branch(before, i, branch);
    assert(after.pools[i].branches =~= pool.branches.take(k) + pool.branches.skip(k + 1));
    k
}

} // verus!
