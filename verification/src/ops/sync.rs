//! `stack sync`: refresh pull requests, fetch, move the trunk forward, rebase,
//! push.

use vstd::prelude::*;

use crate::domain::stack::{stack_views, StackFile, StackFileView, StackView, TrunkView};

verus! {

#[derive(Debug)]
pub struct SyncArgs {
    pub remote: String,
    pub no_refresh: bool,
}

/// Record where the trunk of a stack is, once it was moved forward.
pub fn record_trunk_head(file: &mut StackFile, stack_index: usize, head: &str)
    requires
        stack_index < old(file).stacks@.len(),
    ensures
        final(file)@ == (StackFileView {
            stacks: old(file)@.stacks.update(
                stack_index as int,
                StackView {
                    trunk: TrunkView {
                        head: head@,
                        ..old(file)@.stacks[stack_index as int].trunk
                    },
                    ..old(file)@.stacks[stack_index as int]
                },
            ),
            ..old(file)@
        }),
{
    let ghost before = stack_views(file.stacks@);
    assert(before[stack_index as int] == file.stacks@[stack_index as int]@);
    file.stacks[stack_index].trunk.head = head.to_string();
    assert(stack_views(file.stacks@) =~= before.update(
        stack_index as int,
        StackView {
            trunk: TrunkView { head: head@, ..before[stack_index as int].trunk },
            ..before[stack_index as int]
        },
    ));
}

} // verus!
