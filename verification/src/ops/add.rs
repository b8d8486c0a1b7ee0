//! `stack add`: add a branch on top of the current stack.

use vstd::prelude::*;

use crate::domain::error::{Fault, StackError};
use crate::domain::pool::{PoolFile, PoolFileView};
use crate::domain::stack::{
    branch_views, holding, law_ends_are_outermost, open_at, Branch, BranchView, StackFile,
    StackFileView, StackView,
};
use crate::ops::pool::{
    in_a_pool, law_lookups_tell_holders, lemma_unpooled, pooled, pooled_fault, stacked,
    tracked_once,
};
use crate::ops::submit::find_stack;
use crate::seqs;
use crate::text;

verus! {

#[derive(Debug)]
pub struct AddArgs {
    pub branch: String,
    pub all: bool,
    pub update: bool,
    pub message: Option<String>,
}

/// Check the flags: `-A` and `-u` exclude each other, and either needs a
/// message.
pub fn check_args(args: &AddArgs) -> (r: Result<(), StackError>)
    ensures
        if args.all && args.update {
            r matches Err(e) && e@ == Fault::InvalidArgs("-A and -u are mutually exclusive"@)
        } else if (args.all || args.update) && args.message is None {
            r matches Err(e) && e@ == Fault::InvalidArgs("-A/-u require -m <message>"@)
        } else {
            r is Ok
        },
{
    if args.all && args.update {
        return Err(StackError::InvalidArgs("-A and -u are mutually exclusive".to_string()));
    }
    if (args.all || args.update) && args.message.is_none() {
        return Err(StackError::InvalidArgs("-A/-u require -m <message>".to_string()));
    }
    Ok(())
}

/// What to commit before the branch is made.
#[derive(Debug, Clone, Copy, PartialEq, Eq, Structural)]
pub enum Staging {
    /// Commit nothing.
    Nothing,
    /// Commit what is staged.
    Staged,
    /// Stage and commit everything.
    All,
    /// Stage and commit changes to tracked files.
    KnownFiles,
}

/// What to commit, on the current branch, before the new one is made.
pub fn staging(args: &AddArgs) -> (r: Staging)
    ensures
        r == (if args.message is None {
            Staging::Nothing
        } else if args.all {
            Staging::All
        } else if args.update {
            Staging::KnownFiles
        } else {
            Staging::Staged
        }),
{
    if args.message.is_none() {
        Staging::Nothing
    } else if args.all {
        Staging::All
    } else if args.update {
        Staging::KnownFiles
    } else {
        Staging::Staged
    }
}

/// The branch that a new one goes on top of.
pub open spec fn summit(stack: StackView) -> Seq<char> {
    match stack.top() {
        Some(b) => b.branch,
        None => stack.trunk.branch,
    }
}

/// Where a new branch goes and what it is called in full.
pub open spec fn placed(
    file: StackFileView,
    pools: PoolFileView,
    current: Option<Seq<char>>,
    name: Seq<char>,
) -> Result<(int, Seq<char>), Fault> {
    match current {
        None => Err(Fault::Other("detached HEAD"@)),
        Some(branch) => match seqs::first_where(file.stacks, holding(branch)) {
            None => Err(Fault::NotInStack),
            Some(k) => {
                let stack = file.stacks[k];
                let full = stack.prefixed(name);
                if summit(stack) != branch {
                    Err(
                        Fault::InvalidArgs(
                            "can only add branches on top of the stack (current top: "@ + summit(
                                stack,
                            ) + ")"@,
                        ),
                    )
                } else if file.containing(full).len() > 0 {
                    Err(Fault::InvalidArgs("branch `"@ + full + "` is already in a stack"@))
                } else if pooled(pools)(full) {
                    Err(pooled_fault(full))
                } else {
                    Ok((k, full))
                }
            },
        },
    }
}

/// Where a new branch goes and what it is called in full. Branches are only
/// added on top: the current one must be the topmost that is not merged.
pub fn place(file: &StackFile, pools: &PoolFile, current: Option<&str>, name: &str) -> (r: Result<
    (usize, String),
    StackError,
>)
    ensures
        match placed(file@, pools@, text::opt_str_view(current), name@) {
            Ok((k, full)) => r matches Ok((i, s)) && i == k && i < file.stacks@.len() && s@ == full,
            Err(f) => r matches Err(e) && e@ == f,
        },
{
    let branch = match current {
        None => {
            return Err(StackError::Other("detached HEAD".to_string()));
        },
        Some(b) => b,
    };
    let k = match find_stack(file, branch) {
        None => {
            return Err(StackError::NotInStack);
        },
        Some(k) => k,
    };
    let stack = &file.stacks[k];
    assert(file@.stacks[k as int] == stack@);
    let top = match stack.top_active() {
        Some(b) => b.branch.clone(),
        None => stack.trunk.branch.clone(),
    };
    if !text::same(top.as_str(), branch) {
        return Err(
            StackError::InvalidArgs(
                text::cat3(
                    "can only add branches on top of the stack (current top: ",
                    top.as_str(),
                    ")",
                ),
            ),
        );
    }
    let full = stack.apply_prefix(name);
    let holders = file.stacks_containing(full.as_str());
    assert(crate::domain::stack::stack_ref_views(holders@).len() == holders@.len());
    if holders.len() > 0 {
        return Err(
            StackError::InvalidArgs(
                text::cat3("branch `", full.as_str(), "` is already in a stack"),
            ),
        );
    }
    if pools.pool_position_containing(full.as_str()).is_some() {
        return Err(
            StackError::InvalidArgs(
                text::cat3(
                    "branch `",
                    full.as_str(),
                    "` is already in a pool; use `pool remove` first",
                ),
            ),
        );
    }
    Ok((k, full))
}

/// Check that git has no branch of this name yet.
pub fn check_new(full: &str, known: bool) -> (r: Result<(), StackError>)
    ensures
        if known {
            r matches Err(e) && e@ == Fault::InvalidArgs("branch `"@ + full@ + "` already exists"@)
        } else {
            r is Ok
        },
{
    if known {
        Err(StackError::InvalidArgs(text::cat3("branch `", full, "` already exists")))
    } else {
        Ok(())
    }
}

/// The file with a branch added on top of a stack.
pub open spec fn with_branch(file: StackFileView, stack: int, b: BranchView) -> StackFileView {
    StackFileView {
        stacks: file.stacks.update(
            stack,
            StackView {
                branches: file.stacks[stack].branches.push(b),
                ..file.stacks[stack]
            },
        ),
        ..file
    }
}

/// Record a branch that was made on top of a stack, from `parent` and with its
/// head at `head`.
pub fn record(file: &mut StackFile, stack_index: usize, full: &str, parent: &str, head: &str)
    requires
        stack_index < old(file).stacks@.len(),
    ensures
        final(file)@ == with_branch(
            old(file)@,
            stack_index as int,
            BranchView {
                branch: full@,
                head: Some(head@),
                base: parent@,
                pull_request: None,
            },
        ),
{
    let ghost before = file@;
    let ghost list = branch_views(file.stacks@[stack_index as int].branches@);
    assert(before.stacks[stack_index as int] == file.stacks@[stack_index as int]@);
    let b = Branch {
        branch: full.to_string(),
        head: Some(head.to_string()),
        base: parent.to_string(),
        pull_request: None,
    };
    let ghost model = b@;
    file.stacks[stack_index].branches.push(b);
    assert(branch_views(file.stacks@[stack_index as int].branches@) =~= list.push(model));
    assert(file@.stacks =~= with_branch(before, stack_index as int, model).stacks);
}

/// No branch is in two stacks, nor twice in one.
pub open spec fn stacks_disjoint(stacks: Seq<StackView>) -> bool {
    forall|p: int, i: int, q: int, j: int|
        #![trigger stacks[p].branches[i], stacks[q].branches[j]]
        0 <= p < stacks.len() && 0 <= i < stacks[p].branches.len() && 0 <= q < stacks.len() && 0
            <= j < stacks[q].branches.len() && stacks[p].branches[i].branch
            == stacks[q].branches[j].branch ==> p == q && i == j
}

/// A branch that no stack holds.
pub open spec fn unheld(stacks: Seq<StackView>, branch: Seq<char>) -> bool {
    forall|s: int| 0 <= s < stacks.len() ==> !(#[trigger] stacks[s]).has(branch)
}

/// A branch that the lookup finds nowhere is held nowhere.
pub proof fn lemma_unheld(file: StackFileView, branch: Seq<char>)
    requires
        file.containing(branch).len() == 0,
    ensures
        unheld(file.stacks, branch),
{
    seqs::lemma_filter_all(file.stacks, holding(branch));
    assert forall|s: int| 0 <= s < file.stacks.len() implies !(#[trigger] file.stacks[s]).has(
        branch,
    ) by {
        if file.stacks[s].has(branch) {
            assert(holding(branch)(file.stacks[s]));
            assert(file.containing(branch).contains(file.stacks[s]));
        }
    }
}

/// Adding a branch where `place` says keeps every branch in one stack, once,
/// and the stack then holds the branch on top.
pub proof fn law_add_tracks_once(
    file: StackFileView,
    pools: PoolFileView,
    current: Option<Seq<char>>,
    name: Seq<char>,
    b: BranchView,
)
    requires
        placed(file, pools, current, name) matches Ok((_, full)) && b.branch == full,
        stacks_disjoint(file.stacks),
    ensures
        ({
            let k = placed(file, pools, current, name)->Ok_0.0;
            let after = with_branch(file, k, b);
            &&& stacks_disjoint(after.stacks)
            &&& 0 <= k < file.stacks.len()
            &&& after.stacks[k].branches.last() == b
            &&& !b.is_merged() ==> summit(after.stacks[k]) == b.branch
        }),
{
    let (k, full) = placed(file, pools, current, name)->Ok_0;
    seqs::lemma_first_where_is(file.stacks, holding(current->0));
    lemma_unheld(file, full);
    let before = file.stacks;
    let after = with_branch(file, k, b).stacks;
    assert forall|p: int, i: int, q: int, j: int|
        #![trigger after[p].branches[i], after[q].branches[j]]
        0 <= p < after.len() && 0 <= i < after[p].branches.len() && 0 <= q < after.len() && 0 <= j
            < after[q].branches.len() && after[p].branches[i].branch
            == after[q].branches[j].branch implies p == q && i == j by {
        let new_i = p == k && i == before[k].branches.len();
        let new_j = q == k && j == before[k].branches.len();
        if !new_i {
            assert(after[p].branches[i] == before[p].branches[i]);
            assert(!before[p].has(full));
        }
        if !new_j {
            assert(after[q].branches[j] == before[q].branches[j]);
            assert(!before[q].has(full));
        }
    }
    if !b.is_merged() {
        let list = before[k].branches;
        assert(list.push(b).drop_last() =~= list);
        assert(list.push(b).filter(crate::domain::stack::live()).last() == b) by {
            reveal(Seq::filter);
        }
        assert(list.push(b).filter(crate::domain::stack::live()).len() > 0) by {
            reveal(Seq::filter);
        }
    }
}

/// Adding a branch where `place` says keeps pools and stacks apart.
pub proof fn law_add_stays_apart(
    file: StackFileView,
    pools: PoolFileView,
    current: Option<Seq<char>>,
    name: Seq<char>,
    b: BranchView,
)
    requires
        placed(file, pools, current, name) matches Ok((_, full)) && b.branch == full,
        tracked_once(file, pools),
    ensures
        tracked_once(with_branch(file, placed(file, pools, current, name)->Ok_0.0, b), pools),
{
    let (k, full) = placed(file, pools, current, name)->Ok_0;
    seqs::lemma_first_where_is(file.stacks, holding(current->0));
    lemma_unpooled(pools, full);
    let before = file.stacks;
    let after = with_branch(file, k, b).stacks;
    assert forall|p: int, i: int, s: int|
        #![trigger pools.pools[p].branches[i], after[s]]
        0 <= p < pools.pools.len() && 0 <= i < pools.pools[p].branches.len() && 0 <= s
            < after.len() implies !after[s].has(pools.pools[p].branches[i].branch) by {
        let taken = pools.pools[p].branches[i].branch;
        assert(!before[s].has(taken));
        if after[s].has(taken) {
            let m = choose|m: int|
                0 <= m < after[s].branches.len() && (#[trigger] after[s].branches[m]).branch
                    == taken;
            if m < before[s].branches.len() {
                assert(before[s].branches[m] == after[s].branches[m]);
            } else {
                assert(pools.pools[p].has(full));
            }
        }
    }
}

/// Where a branch may be added. The current branch is the highest of its stack
/// that is not merged. The new one is called what was asked for, behind the
/// stack's prefix, and no stack and no pool holds that name.
pub proof fn law_placed_on_top(
    file: StackFileView,
    pools: PoolFileView,
    current: Option<Seq<char>>,
    name: Seq<char>,
)
    ensures
        placed(file, pools, current, name) matches Ok((k, full)) ==> {
            let stack = file.stacks[k];
            &&& 0 <= k < file.stacks.len()
            &&& current matches Some(c) && stack.has(c) && {
                ||| exists|i: int|
                    #[trigger] open_at(stack, i) && stack.branches[i].branch == c && forall|j: int|
                        i < j ==> !#[trigger] open_at(stack, j)
                ||| c == stack.trunk.branch && forall|j: int| !#[trigger] open_at(stack, j)
            }
            &&& full == (match stack.prefix {
                Some(p) => p + "/"@ + name,
                None => name,
            })
            &&& !stacked(file, full) && !in_a_pool(pools, full)
        },
        current is None ==> placed(file, pools, current, name) is Err,
        current matches Some(c) ==> !stacked(file, c) ==> placed(file, pools, current, name)
            == Err::<(int, Seq<char>), Fault>(Fault::NotInStack),
{
    if let Some(c) = current {
        law_lookups_tell_holders(file, pools, c);
        seqs::lemma_first_where_is(file.stacks, holding(c));
        if let Some(k) = seqs::first_where(file.stacks, holding(c)) {
            law_ends_are_outermost(file.stacks[k]);
            law_lookups_tell_holders(file, pools, file.stacks[k].prefixed(name));
            assert(file.stacks[k].has(c));
            let i = choose|i: int|
                0 <= i < file.stacks[k].branches.len() && (
                #[trigger] file.stacks[k].branches[i]).branch == c;
            assert(file.stacks[k].branches[i].branch == c);
        }
    }
}

/// A branch that is added comes last, and nothing else changes.
pub proof fn law_added_comes_last(file: StackFileView, k: int, b: BranchView)
    requires
        0 <= k < file.stacks.len(),
    ensures
        ({
            let after = with_branch(file, k, b);
            let is = after.stacks[k];
            &&& after.stacks.len() == file.stacks.len()
            &&& is.branches.len() == file.stacks[k].branches.len() + 1
            &&& is.branches.last() == b
            &&& is.branches.drop_last() == file.stacks[k].branches
            &&& is.prefix == file.stacks[k].prefix && is.trunk == file.stacks[k].trunk
                && is.last_refreshed_at == file.stacks[k].last_refreshed_at
            &&& forall|s: int|
                0 <= s < file.stacks.len() && s != k ==> #[trigger] after.stacks[s]
                    == file.stacks[s]
        }),
{
    assert(with_branch(file, k, b).stacks[k].branches.drop_last() =~= file.stacks[k].branches);
}

} // verus!
