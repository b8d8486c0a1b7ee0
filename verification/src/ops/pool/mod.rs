//! `pool`: flat collections of independent branches with pull-request
//! tracking. A repository has at most one unnamed default pool and any number
//! of named ones.

use vstd::prelude::*;

use crate::domain::error::{Fault, StackError};
use crate::domain::pool::{
    branch_views, holding, pool_views, Pool, PoolBranch, PoolBranchView, PoolFile, PoolFileView,
    PoolView,
};
use crate::domain::stack::{BranchView, StackFileView, StackView, Trunk, TrunkView};
use crate::seqs;
use crate::text;

pub mod add;
pub mod adopt;
pub mod init;
pub mod list;
pub mod prune;
pub mod rebase;
pub mod refresh;
pub mod remove;
pub mod submit;

verus! {

/// Which pool the caller means: the one of that name; or, without a name, the
/// only one there is, or else the default pool.
pub open spec fn chosen_pool(file: PoolFileView, name: Option<Seq<char>>) -> Result<int, Fault> {
    match name {
        Some(n) => match file.position(Some(n)) {
            Some(i) => Ok(i),
            None => Err(Fault::InvalidArgs("no pool named `"@ + n + "` in this repo"@)),
        },
        None => if file.pools.len() == 0 {
            Err(
                Fault::InvalidArgs(
                    "no pools tracked for this repo; add a branch with `pool add` first"@,
                ),
            )
        } else if file.pools.len() == 1 {
            Ok(0)
        } else {
            match file.position(None) {
                Some(i) => Ok(i),
                None => Err(
                    Fault::InvalidArgs("multiple named pools tracked; pass --pool <name>"@),
                ),
            }
        },
    }
}

/// Resolve which pool the caller means.
pub fn resolve_pool_index(file: &PoolFile, name: Option<&str>) -> (r: Result<usize, StackError>)
    ensures
        match chosen_pool(file@, text::opt_str_view(name)) {
            Ok(i) => r matches Ok(k) && k == i && k < file.pools@.len(),
            Err(f) => r matches Err(e) && e@ == f,
        },
{
    assert(file@.pools.len() == file.pools@.len());
    match name {
        Some(n) => match file.pool_position(Some(n)) {
            Some(i) => Ok(i),
            None => Err(
                StackError::InvalidArgs(text::cat3("no pool named `", n, "` in this repo")),
            ),
        },
        None => if file.pools.len() == 0 {
            Err(
                StackError::InvalidArgs(
                    "no pools tracked for this repo; add a branch with `pool add` first".to_string(),
                ),
            )
        } else if file.pools.len() == 1 {
            Ok(0)
        } else {
            match file.pool_position(None) {
                Some(i) => Ok(i),
                None => Err(
                    StackError::InvalidArgs(
                        "multiple named pools tracked; pass --pool <name>".to_string(),
                    ),
                ),
            }
        },
    }
}

/// The one pool that holds a branch.
pub open spec fn pool_of_branch(file: PoolFileView, branch: Seq<char>) -> Result<int, Fault> {
    match file.position_containing(branch) {
        None => Err(Fault::Other("branch `"@ + branch + "` is not in any pool"@)),
        Some(i) => if exists|j: int|
            i < j < file.pools.len() && (#[trigger] file.pools[j]).has(branch) {
            Err(Fault::Disambiguation(branch))
        } else {
            Ok(i)
        },
    }
}

/// Look up the pool that holds `branch`: an error where none does, and where
/// more than one does.
pub fn resolve_pool_index_for_branch(file: &PoolFile, branch: &str) -> (r: Result<
    usize,
    StackError,
>)
    ensures
        match pool_of_branch(file@, branch@) {
            Ok(i) => r matches Ok(k) && k == i && k < file.pools@.len(),
            Err(f) => r matches Err(e) && e@ == f,
        },
{
    let ghost all = file@.pools;
    match file.pool_position_containing(branch) {
        None => Err(
            StackError::Other(text::cat3("branch `", branch, "` is not in any pool")),
        ),
        Some(i) => {
            let n: usize = file.pools.len();
            let mut j: usize = i + 1;
            while j < n
                invariant
                    i < j <= n,
                    n == file.pools@.len(),
                    all == pool_views(file.pools@),
                    all == file@.pools,
                    file@.position_containing(branch@) == Some(i as int),
                    forall|k: int| i < k < j ==> !(#[trigger] all[k]).has(branch@),
                decreases n - j,
            {
                assert(all[j as int] == file.pools@[j as int]@);
                if file.pools[j].contains(branch) {
                    return Err(StackError::Disambiguation(branch.to_string()));
                }
                j = j + 1;
            }
            Ok(i)
        },
    }
}

/// What a pool is called in messages.
pub fn label_for(pool: &Pool) -> (r: &str)
    ensures
        r@ == pool@.label(),
{
    pool.display_label()
}

/// The pool that a lookup by name finds has that name, and the one that a
/// lookup by branch finds holds the branch, alone of all pools.
pub proof fn law_lookups_find(file: PoolFileView, name: Seq<char>, branch: Seq<char>)
    ensures
        chosen_pool(file, Some(name)) matches Ok(i) ==> 0 <= i < file.pools.len()
            && file.pools[i].name == Some(name),
        pool_of_branch(file, branch) matches Ok(i) ==> 0 <= i < file.pools.len()
            && file.pools[i].has(branch) && forall|j: int|
            0 <= j < file.pools.len() && j != i ==> !(#[trigger] file.pools[j]).has(branch),
{
    seqs::lemma_first_where_is(file.pools, crate::domain::pool::called(Some(name)));
    seqs::lemma_first_where_is(file.pools, holding(branch));
    if let Ok(i) = pool_of_branch(file, branch) {
        assert forall|j: int| 0 <= j < file.pools.len() && j != i implies !(
        #[trigger] file.pools[j]).has(branch) by {
            if j < i {
                assert(!holding(branch)(file.pools[j]));
            }
        }
    }
}

/// Where the pool of this name stands, or would stand once it was made.
pub open spec fn pool_slot(file: PoolFileView, name: Option<Seq<char>>) -> int {
    match file.position(name) {
        Some(i) => i,
        None => file.pools.len() as int,
    }
}

/// The file with a pool of this name: it is made, empty, where there was none.
pub open spec fn with_pool(
    file: PoolFileView,
    name: Option<Seq<char>>,
    trunk: TrunkView,
    stamp: Option<Seq<char>>,
) -> PoolFileView {
    match file.position(name) {
        Some(_) => file,
        None => PoolFileView {
            pools: file.pools.push(
                PoolView { name, trunk, branches: Seq::empty(), last_refreshed_at: stamp },
            ),
            ..file
        },
    }
}

/// Find the pool of this name, or make it.
pub fn ensure_pool(
    file: &mut PoolFile,
    name: &Option<String>,
    trunk: Trunk,
    stamp: Option<String>,
) -> (r: usize)
    ensures
        r == pool_slot(old(file)@, text::opt_view(*name)),
        r < final(file).pools@.len(),
        final(file)@ == with_pool(
            old(file)@,
            text::opt_view(*name),
            trunk@,
            text::opt_view(stamp),
        ),
{
    let wanted = match name {
        Some(n) => Some(n.as_str()),
        None => None,
    };
    assert(text::opt_str_view(wanted) == text::opt_view(*name));
    match file.pool_position(wanted) {
        Some(i) => i,
        None => {
            let ghost before = pool_views(file.pools@);
            let branches: Vec<PoolBranch> = Vec::new();
            assert(branch_views(branches@) =~= Seq::<PoolBranchView>::empty());
            let pool = Pool {
                name: text::copy_opt(name),
                trunk,
                branches,
                last_refreshed_at: stamp,
            };
            let ghost model = pool@;
            file.pools.push(pool);
            assert(pool_views(file.pools@) =~= before.push(model));
            file.pools.len() - 1
        },
    }
}

/// The file with a branch added at the end of a pool.
pub open spec fn with_branch(file: PoolFileView, index: int, b: PoolBranchView) -> PoolFileView {
    PoolFileView {
        pools: file.pools.update(
            index,
            PoolView { branches: file.pools[index].branches.push(b), ..file.pools[index] },
        ),
        ..file
    }
}

/// Add a branch at the end of a pool.
pub fn append_branch(file: &mut PoolFile, index: usize, b: PoolBranch)
    requires
        index < old(file).pools@.len(),
    ensures
        final(file)@ == with_branch(old(file)@, index as int, b@),
        final(file).pools@.len() == old(file).pools@.len(),
{
    let ghost before = pool_views(file.pools@);
    let ghost model = b@;
    let ghost list = branch_views(file.pools@[index as int].branches@);
    assert(before[index as int] == file.pools@[index as int]@);
    file.pools[index].branches.push(b);
    assert(branch_views(file.pools@[index as int].branches@) =~= list.push(model));
    assert(pool_views(file.pools@) =~= with_branch(old(file)@, index as int, model).pools);
}

/// The file with a refresh of a pool recorded.
pub open spec fn with_stamp(file: PoolFileView, index: int, now: Seq<char>) -> PoolFileView {
    PoolFileView {
        pools: file.pools.update(
            index,
            PoolView { last_refreshed_at: Some(now), ..file.pools[index] },
        ),
        ..file
    }
}

/// Record a refresh of a pool.
pub fn stamp_pool(file: &mut PoolFile, index: usize, now: &str)
    requires
        index < old(file).pools@.len(),
    ensures
        final(file)@ == with_stamp(old(file)@, index as int, now@),
{
    let ghost before = pool_views(file.pools@);
    assert(before[index as int] == file.pools@[index as int]@);
    file.pools[index].last_refreshed_at = Some(now.to_string());
    assert(pool_views(file.pools@) =~= with_stamp(old(file)@, index as int, now@).pools);
}

/// No two branches of any pools have the same name.
pub open spec fn pools_disjoint(pools: Seq<PoolView>) -> bool {
    forall|p: int, i: int, q: int, j: int|
        #![trigger pools[p].branches[i], pools[q].branches[j]]
        0 <= p < pools.len() && 0 <= i < pools[p].branches.len() && 0 <= q < pools.len() && 0 <= j
            < pools[q].branches.len() && pools[p].branches[i].branch == pools[q].branches[j].branch
            ==> p == q && i == j
}

/// No branch of a pool is in a stack.
pub open spec fn apart(stacks: StackFileView, pools: Seq<PoolView>) -> bool {
    forall|p: int, i: int, s: int|
        #![trigger pools[p].branches[i], stacks.stacks[s]]
        0 <= p < pools.len() && 0 <= i < pools[p].branches.len() && 0 <= s < stacks.stacks.len()
            ==> !stacks.stacks[s].has(pools[p].branches[i].branch)
}

/// Every branch of a pool is in that pool alone, once, and in no stack.
pub open spec fn tracked_once(stacks: StackFileView, pools: PoolFileView) -> bool {
    pools_disjoint(pools.pools) && apart(stacks, pools.pools)
}

/// A branch that no stack and no pool holds.
pub open spec fn untracked(stacks: StackFileView, pools: PoolFileView, branch: Seq<char>) -> bool {
    &&& forall|s: int| 0 <= s < stacks.stacks.len() ==> !(#[trigger] stacks.stacks[s]).has(branch)
    &&& forall|p: int| 0 <= p < pools.pools.len() ==> !(#[trigger] pools.pools[p]).has(branch)
}

/// A branch that the two lookups find nowhere is untracked.
pub proof fn lemma_untracked(stacks: StackFileView, pools: PoolFileView, branch: Seq<char>)
    requires
        stacks.containing(branch).len() == 0,
        pools.position_containing(branch) is None,
    ensures
        untracked(stacks, pools, branch),
{
    let p = crate::domain::stack::holding(branch);
    seqs::lemma_filter_all(stacks.stacks, p);
    assert forall|s: int| 0 <= s < stacks.stacks.len() implies !(#[trigger] stacks.stacks[s]).has(
        branch,
    ) by {
        if stacks.stacks[s].has(branch) {
            assert(p(stacks.stacks[s]));
            assert(stacks.stacks.filter(p).contains(stacks.stacks[s]));
        }
    }
    seqs::lemma_first_where_is(pools.pools, holding(branch));
    assert forall|q: int| 0 <= q < pools.pools.len() implies !(#[trigger] pools.pools[q]).has(
        branch,
    ) by {
        assert(!holding(branch)(pools.pools[q]));
    }
}

/// Making a pool keeps every branch tracked once.
pub proof fn lemma_with_pool_keeps(
    stacks: StackFileView,
    pools: PoolFileView,
    name: Option<Seq<char>>,
    trunk: TrunkView,
    stamp: Option<Seq<char>>,
)
    requires
        tracked_once(stacks, pools),
    ensures
        tracked_once(stacks, with_pool(pools, name, trunk, stamp)),
        0 <= pool_slot(pools, name) < with_pool(pools, name, trunk, stamp).pools.len(),
{
    seqs::lemma_first_where_is(pools.pools, crate::domain::pool::called(name));
    let after = with_pool(pools, name, trunk, stamp).pools;
    if pools.position(name) is None {
        assert forall|p: int, i: int, q: int, j: int|
            #![trigger after[p].branches[i], after[q].branches[j]]
            0 <= p < after.len() && 0 <= i < after[p].branches.len() && 0 <= q < after.len() && 0
                <= j < after[q].branches.len() && after[p].branches[i].branch
                == after[q].branches[j].branch implies p == q && i == j by {
            assert(p < pools.pools.len() && q < pools.pools.len());
            assert(after[p].branches[i] == pools.pools[p].branches[i]);
            assert(after[q].branches[j] == pools.pools[q].branches[j]);
        }
        assert forall|p: int, i: int, s: int|
            #![trigger after[p].branches[i], stacks.stacks[s]]
            0 <= p < after.len() && 0 <= i < after[p].branches.len() && 0 <= s
                < stacks.stacks.len() implies !stacks.stacks[s].has(
            after[p].branches[i].branch,
        ) by {
            assert(after[p].branches[i] == pools.pools[p].branches[i]);
        }
    }
}

/// Adding an untracked branch to a pool keeps every branch tracked once.
pub proof fn lemma_with_branch_keeps(
    stacks: StackFileView,
    pools: PoolFileView,
    index: int,
    b: PoolBranchView,
)
    requires
        tracked_once(stacks, pools),
        untracked(stacks, pools, b.branch),
        0 <= index < pools.pools.len(),
    ensures
        tracked_once(stacks, with_branch(pools, index, b)),
{
    let before = pools.pools;
    let after = with_branch(pools, index, b).pools;
    assert forall|p: int, i: int|
        #![trigger after[p].branches[i]]
        0 <= p < after.len() && 0 <= i < after[p].branches.len() implies ({
        ||| p == index && i == before[index].branches.len() && after[p].branches[i] == b
        ||| 0 <= i < before[p].branches.len() && after[p].branches[i] == before[p].branches[i]
            && after[p].branches[i].branch != b.branch
    }) by {
        if !(p == index && i == before[index].branches.len()) {
            assert(after[p].branches[i] == before[p].branches[i]);
            assert(!before[p].has(b.branch));
        }
    }
    assert forall|p: int, i: int, s: int|
        #![trigger after[p].branches[i], stacks.stacks[s]]
        0 <= p < after.len() && 0 <= i < after[p].branches.len() && 0 <= s
            < stacks.stacks.len() implies !stacks.stacks[s].has(after[p].branches[i].branch) by {
        if !(p == index && i == before[index].branches.len()) {
            assert(after[p].branches[i] == before[p].branches[i]);
        }
    }
    assert forall|p: int, i: int, q: int, j: int|
        #![trigger after[p].branches[i], after[q].branches[j]]
        0 <= p < after.len() && 0 <= i < after[p].branches.len() && 0 <= q < after.len() && 0 <= j
            < after[q].branches.len() && after[p].branches[i].branch
            == after[q].branches[j].branch implies p == q && i == j by {
        if after[p].branches[i] != b && after[q].branches[j] != b {
            assert(after[p].branches[i] == before[p].branches[i]);
            assert(after[q].branches[j] == before[q].branches[j]);
        }
    }
}

/// Recording a refresh keeps every branch tracked once.
pub proof fn lemma_with_stamp_keeps(
    stacks: StackFileView,
    pools: PoolFileView,
    index: int,
    now: Seq<char>,
)
    requires
        tracked_once(stacks, pools),
        0 <= index < pools.pools.len(),
    ensures
        tracked_once(stacks, with_stamp(pools, index, now)),
{
    let before = pools.pools;
    let after = with_stamp(pools, index, now).pools;
    assert forall|p: int| 0 <= p < after.len() implies (#[trigger] after[p]).branches
        == before[p].branches by {}
    assert forall|p: int, i: int, s: int|
        #![trigger after[p].branches[i], stacks.stacks[s]]
        0 <= p < after.len() && 0 <= i < after[p].branches.len() && 0 <= s
            < stacks.stacks.len() implies !stacks.stacks[s].has(after[p].branches[i].branch) by {
        assert(after[p].branches[i] == before[p].branches[i]);
    }
    assert forall|p: int, i: int, q: int, j: int|
        #![trigger after[p].branches[i], after[q].branches[j]]
        0 <= p < after.len() && 0 <= i < after[p].branches.len() && 0 <= q < after.len() && 0 <= j
            < after[q].branches.len() && after[p].branches[i].branch
            == after[q].branches[j].branch implies p == q && i == j by {
        assert(after[p].branches[i] == before[p].branches[i]);
        assert(after[q].branches[j] == before[q].branches[j]);
    }
}

/// No two pools have the same name, and at most one has none.
pub open spec fn named_once(pools: Seq<PoolView>) -> bool {
    forall|p: int, q: int|
        0 <= p < q < pools.len() ==> (#[trigger] pools[p]).name != (#[trigger] pools[q]).name
}

/// Pools come in under names of their own: making one where there is none keeps
/// at most one default pool and one of each name, and there is one then.
pub proof fn law_one_pool_per_name(
    file: PoolFileView,
    name: Option<Seq<char>>,
    trunk: TrunkView,
    stamp: Option<Seq<char>>,
)
    requires
        named_once(file.pools),
    ensures
        named_once(with_pool(file, name, trunk, stamp).pools),
        with_pool(file, name, trunk, stamp).position(name) == Some(pool_slot(file, name)),
{
    let called = crate::domain::pool::called(name);
    let after = with_pool(file, name, trunk, stamp).pools;
    seqs::lemma_first_where_is(file.pools, called);
    if file.position(name) is None {
        assert forall|p: int, q: int| 0 <= p < q < after.len() implies (#[trigger] after[p]).name
            != (#[trigger] after[q]).name by {
            assert(after[p] == file.pools[p]);
            if q < file.pools.len() {
                assert(after[q] == file.pools[q]);
            } else {
                assert(!called(file.pools[p]));
            }
        }
        assert forall|j: int| 0 <= j < file.pools.len() implies !called(#[trigger] after[j]) by {
            assert(after[j] == file.pools[j]);
            assert(!called(file.pools[j]));
        }
        seqs::lemma_first_where(after, called, file.pools.len() as int);
    }
}

/// The branches that are in a pool.
pub open spec fn pooled(pools: PoolFileView) -> spec_fn(Seq<char>) -> bool {
    |n: Seq<char>| pools.position_containing(n) is Some
}

/// The error where a branch that is to go into a stack is in a pool.
pub open spec fn pooled_fault(name: Seq<char>) -> Fault {
    Fault::InvalidArgs("branch `"@ + name + "` is already in a pool; use `pool remove` first"@)
}

/// Check that no pool holds any of the branches, so that they can go into a
/// stack; the first that one does is named.
pub fn check_unpooled(pools: &PoolFile, names: &Vec<String>) -> (r: Result<(), StackError>)
    ensures
        match seqs::first_where(text::views(names@), pooled(pools@)) {
            Some(k) => r matches Err(e) && e@ == pooled_fault(text::views(names@)[k]),
            None => r is Ok,
        },
{
    let ghost all = text::views(names@);
    let ghost p = pooled(pools@);
    let mut i: usize = 0;
    while i < names.len()
        invariant
            i <= names@.len(),
            all == text::views(names@),
            p == pooled(pools@),
            forall|j: int| 0 <= j < i ==> !p(#[trigger] all[j]),
        decreases names.len() - i,
    {
        let name = names[i].as_str();
        assert(all[i as int] == name@);
        if pools.pool_position_containing(name).is_some() {
            proof {
                seqs::lemma_first_where(all, p, i as int);
            }
            return Err(
                StackError::InvalidArgs(
                    text::cat3(
                        "branch `",
                        name,
                        "` is already in a pool; use `pool remove` first",
                    ),
                ),
            );
        }
        i = i + 1;
    }
    proof {
        seqs::lemma_first_where_none(all, p);
    }
    Ok(())
}

/// A branch that the lookup finds in no pool is in none.
pub proof fn lemma_unpooled(pools: PoolFileView, branch: Seq<char>)
    requires
        !pooled(pools)(branch),
    ensures
        forall|p: int| 0 <= p < pools.pools.len() ==> !(#[trigger] pools.pools[p]).has(branch),
{
    seqs::lemma_first_where_is(pools.pools, holding(branch));
    assert forall|p: int| 0 <= p < pools.pools.len() implies !(#[trigger] pools.pools[p]).has(
        branch,
    ) by {
        assert(!holding(branch)(pools.pools[p]));
    }
}

/// A stack whose branches `check_unpooled` lets through keeps pools and stacks
/// apart when it comes in.
pub proof fn law_new_stack_stays_apart(
    stacks: StackFileView,
    pools: PoolFileView,
    stack: StackView,
)
    requires
        tracked_once(stacks, pools),
        seqs::first_where(
            stack.branches.map_values(|b: BranchView| b.branch),
            pooled(pools),
        ) is None,
    ensures
        tracked_once(
            StackFileView { stacks: stacks.stacks.push(stack), ..stacks },
            pools,
        ),
{
    let names = stack.branches.map_values(|b: BranchView| b.branch);
    seqs::lemma_first_where_is(names, pooled(pools));
    let after = stacks.stacks.push(stack);
    assert forall|p: int, i: int, s: int|
        #![trigger pools.pools[p].branches[i], after[s]]
        0 <= p < pools.pools.len() && 0 <= i < pools.pools[p].branches.len() && 0 <= s
            < after.len() implies !after[s].has(pools.pools[p].branches[i].branch) by {
        let name = pools.pools[p].branches[i].branch;
        if s < stacks.stacks.len() {
            assert(after[s] == stacks.stacks[s]);
        } else if stack.has(name) {
            let k = choose|k: int|
                0 <= k < stack.branches.len() && (#[trigger] stack.branches[k]).branch == name;
            assert(names[k] == name);
            assert(!pooled(pools)(names[k]));
            lemma_unpooled(pools, name);
            assert(pools.pools[p].has(name));
        }
    }
}

/// Whether a stack holds a branch of this name.
pub open spec fn stacked(stacks: StackFileView, name: Seq<char>) -> bool {
    exists|s: int, i: int|
        0 <= s < stacks.stacks.len() && 0 <= i < stacks.stacks[s].branches.len() && (
        #[trigger] stacks.stacks[s].branches[i]).branch == name
}

/// Whether a pool holds a branch of this name.
pub open spec fn in_a_pool(pools: PoolFileView, name: Seq<char>) -> bool {
    exists|p: int, i: int|
        0 <= p < pools.pools.len() && 0 <= i < pools.pools[p].branches.len() && (
        #[trigger] pools.pools[p].branches[i]).branch == name
}

/// The lookups by branch find something exactly where a stack, or a pool, holds
/// a branch of that name.
pub proof fn law_lookups_tell_holders(
    stacks: StackFileView,
    pools: PoolFileView,
    branch: Seq<char>,
)
    ensures
        stacks.containing(branch).len() > 0 <==> stacked(stacks, branch),
        pools.position_containing(branch) is Some <==> in_a_pool(pools, branch),
{
    let p = crate::domain::stack::holding(branch);
    seqs::lemma_filter_all(stacks.stacks, p);
    seqs::lemma_first_where_is(pools.pools, holding(branch));
    if stacks.containing(branch).len() > 0 {
        let x = stacks.containing(branch)[0];
        assert(stacks.stacks.filter(p).contains(x));
        assert(p(x) && stacks.stacks.contains(x));
        let s = choose|s: int| 0 <= s < stacks.stacks.len() && stacks.stacks[s] == x;
        let i = choose|i: int|
            0 <= i < x.branches.len() && (#[trigger] x.branches[i]).branch == branch;
        assert(stacks.stacks[s].branches[i].branch == branch);
    } else if stacked(stacks, branch) {
        let (s, i) = choose|s: int, i: int|
            0 <= s < stacks.stacks.len() && 0 <= i < stacks.stacks[s].branches.len() && (
            #[trigger] stacks.stacks[s].branches[i]).branch == branch;
        assert(p(stacks.stacks[s]));
        assert(stacks.stacks.filter(p).contains(stacks.stacks[s]));
    }
    if let Some(q) = pools.position_containing(branch) {
        let i = choose|i: int|
            0 <= i < pools.pools[q].branches.len() && (
            #[trigger] pools.pools[q].branches[i]).branch == branch;
        assert(pools.pools[q].branches[i].branch == branch);
    } else if in_a_pool(pools, branch) {
        let (q, i) = choose|q: int, i: int|
            0 <= q < pools.pools.len() && 0 <= i < pools.pools[q].branches.len() && (
            #[trigger] pools.pools[q].branches[i]).branch == branch;
        assert(pools.pools[q].has(branch));
        assert(!holding(branch)(pools.pools[q]));
    }
}

/// Which pool is meant: one of the name given; without a name the only one, or of
/// several the one that has none. It is an error where there is no such pool, and
/// only there.
pub proof fn law_choice_goes_by_name(file: PoolFileView, name: Option<Seq<char>>)
    ensures
        match chosen_pool(file, name) {
            Ok(i) => {
                &&& 0 <= i < file.pools.len()
                &&& file.pools[i].name == name || (name is None && file.pools.len() == 1)
                &&& forall|j: int|
                    0 <= j < i ==> (#[trigger] file.pools[j]).name != file.pools[i].name
            },
            Err(_) => {
                &&& forall|j: int|
                    0 <= j < file.pools.len() ==> (#[trigger] file.pools[j]).name != name
                &&& name is None ==> file.pools.len() != 1
            },
        },
{
    let p = crate::domain::pool::called(name);
    seqs::lemma_first_where_is(file.pools, p);
    assert forall|j: int| 0 <= j < file.pools.len() implies p(#[trigger] file.pools[j]) == (
    file.pools[j].name == name) by {}
}

/// A lookup by branch fails for want of a pool exactly where none holds the
/// branch, and for want of a choice exactly where two do.
pub proof fn law_pool_of_branch_is_plain(file: PoolFileView, branch: Seq<char>)
    ensures
        match pool_of_branch(file, branch) {
            Ok(i) => 0 <= i < file.pools.len() && file.pools[i].has(branch),
            Err(Fault::Disambiguation(n)) => n == branch && exists|i: int, j: int|
                0 <= i < j < file.pools.len() && (#[trigger] file.pools[i]).has(branch) && (
                #[trigger] file.pools[j]).has(branch),
            Err(_) => !in_a_pool(file, branch),
        },
{
    law_lookups_find(file, branch, branch);
    seqs::lemma_first_where_is(file.pools, holding(branch));
    if let Some(i) = file.position_containing(branch) {
        assert(file.pools[i].has(branch));
    } else if in_a_pool(file, branch) {
        let (q, i) = choose|q: int, i: int|
            0 <= q < file.pools.len() && 0 <= i < file.pools[q].branches.len() && (
            #[trigger] file.pools[q].branches[i]).branch == branch;
        assert(file.pools[q].has(branch));
        assert(!holding(branch)(file.pools[q]));
    }
}

} // verus!
