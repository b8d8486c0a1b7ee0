//! `stack drop`: remove one branch from a stack. Only the record goes: the git
//! branch is left alone. The branch above keeps the base it had, which is what
//! the rebase that follows replays it from.

use vstd::prelude::*;

use crate::domain::error::StackError;
use crate::domain::stack::{branch_views, named, StackFile, StackFileView, StackView};
use crate::ops::{lemma_sole_stack, sole_stack, stack_of_branch};
use crate::seqs;
use crate::text;

verus! {

/// Where a branch to drop stands: its stack, and its place in it.
pub fn locate(file: &StackFile, target: &str) -> (r: Result<(usize, usize), StackError>)
    ensures
        match sole_stack(file@, target@) {
            Ok(k) => {
                &&& r matches Ok((s, i))
                &&& s == k && s < file.stacks@.len()
                &&& file@.stacks[k].position(target@) == Some(i as int)
                &&& i < file.stacks@[s as int].branches@.len()
            },
            Err(f) => r matches Err(e) && e@ == f,
        },
{
    proof {
        lemma_sole_stack(file@, target@);
    }
    let s = match stack_of_branch(file, target) {
        Err(e) => {
            return Err(e);
        },
        Ok(s) => s,
    };
    let ghost stack = file@.stacks[s as int];
    assert(stack == file.stacks@[s as int]@);
    proof {
        seqs::lemma_first_where_is(stack.branches, named(target@));
        let w = choose|w: int|
            0 <= w < stack.branches.len() && (#[trigger] stack.branches[w]).branch == target@;
        assert(named(target@)(stack.branches[w]));
    }
    match file.stacks[s].position(target) {
        Some(i) => Ok((s, i)),
        None => Err(StackError::NotInStack),
    }
}

/// Where to move off a branch that is dropped: to its parent, which is the
/// branch below, or the trunk.
pub open spec fn refuge(stack: StackView, i: int) -> Seq<char> {
    if i > 0 {
        stack.branches[i - 1].branch
    } else {
        stack.trunk.branch
    }
}

/// The branch to check out before the one at `i` is dropped; `None` where it
/// is not the current one.
pub fn move_off(file: &StackFile, stack_index: usize, i: usize, current: Option<&str>) -> (r:
    Option<String>)
    requires
        stack_index < file.stacks@.len(),
        i < file.stacks@[stack_index as int].branches@.len(),
    ensures
        text::opt_view(r) == (if text::opt_str_view(current) == Some(
            file@.stacks[stack_index as int].branches[i as int].branch,
        ) {
            Some(refuge(file@.stacks[stack_index as int], i as int))
        } else {
            None
        }),
{
    let stack = &file.stacks[stack_index];
    assert(file@.stacks[stack_index as int] == stack@);
    assert(stack@.branches[i as int] == stack.branches@[i as int]@);
    match current {
        Some(c) => if text::same(c, stack.branches[i].branch.as_str()) {
            if i > 0 {
                assert(stack@.branches[i - 1] == stack.branches@[i - 1]@);
                Some(stack.branches[i - 1].branch.clone())
            } else {
                Some(stack.trunk.branch.clone())
            }
        } else {
            None
        },
        None => None,
    }
}

/// The file without the branch at `i` of a stack.
pub open spec fn without_branch(file: StackFileView, stack: int, i: int) -> StackFileView {
    StackFileView {
        stacks: file.stacks.update(
            stack,
            StackView {
                branches: file.stacks[stack].branches.remove(i),
                ..file.stacks[stack]
            },
        ),
        ..file
    }
}

/// Drop the branch at `i` of a stack. Returns whether that was the last one;
/// then the stack goes too.
pub fn drop_branch(file: &mut StackFile, stack_index: usize, i: usize) -> (r: bool)
    requires
        stack_index < old(file).stacks@.len(),
        i < old(file).stacks@[stack_index as int].branches@.len(),
    ensures
        r == (old(file)@.stacks[stack_index as int].branches.len() == 1),
        final(file)@ == (if r {
            StackFileView {
                stacks: old(file)@.stacks.remove(stack_index as int),
                ..old(file)@
            }
        } else {
            without_branch(old(file)@, stack_index as int, i as int)
        }),
{
    let ghost before = file@;
    let ghost list = branch_views(file.stacks@[stack_index as int].branches@);
    assert(before.stacks[stack_index as int] == file.stacks@[stack_index as int]@);
    file.stacks[stack_index].branches.remove(i);
    assert(branch_views(file.stacks@[stack_index as int].branches@) =~= list.remove(i as int));
    assert(file@.stacks =~= without_branch(before, stack_index as int, i as int).stacks);
    if file.stacks[stack_index].branches.len() == 0 {
        file.stacks.remove(stack_index);
        assert(file@.stacks =~= before.stacks.remove(stack_index as int));
        true
    } else {
        false
    }
}

/// Dropping a branch leaves every other branch of the stack as it was, in
/// order, its base with it, and every other stack.
pub proof fn law_drop_keeps_others(file: StackFileView, stack: int, i: int, j: int)
    requires
        0 <= stack < file.stacks.len(),
        0 <= i < file.stacks[stack].branches.len(),
        0 <= j < file.stacks[stack].branches.len() - 1,
    ensures
        without_branch(file, stack, i).stacks[stack].branches[j] == file.stacks[stack].branches[if j
            < i {
            j
        } else {
            j + 1
        }],
        forall|s: int|
            0 <= s < file.stacks.len() && s != stack ==> #[trigger] without_branch(
                file,
                stack,
                i,
            ).stacks[s] == file.stacks[s],
{
}

/// The refuge from a branch that is dropped is the one directly below it, or the
/// trunk where there is none.
pub proof fn law_refuge_is_below(stack: StackView, i: int)
    requires
        0 <= i < stack.branches.len(),
    ensures
        i == 0 ==> refuge(stack, i) == stack.trunk.branch,
        i > 0 ==> refuge(stack, i) == stack.branches[i - 1].branch,
{
}

/// Dropping a branch takes out that one alone: the stack keeps its prefix, trunk
/// and timestamp, and has one branch less.
pub proof fn law_drop_takes_one(file: StackFileView, stack: int, i: int)
    requires
        0 <= stack < file.stacks.len(),
        0 <= i < file.stacks[stack].branches.len(),
    ensures
        ({
            let was = file.stacks[stack];
            let is = without_branch(file, stack, i).stacks[stack];
            &&& is.prefix == was.prefix && is.trunk == was.trunk && is.last_refreshed_at
                == was.last_refreshed_at
            &&& is.branches == was.branches.take(i) + was.branches.skip(i + 1)
            &&& without_branch(file, stack, i).stacks.len() == file.stacks.len()
        }),
{
    let was = file.stacks[stack];
    assert(was.branches.remove(i) =~= was.branches.take(i) + was.branches.skip(i + 1));
}

} // verus!
