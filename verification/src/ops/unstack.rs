//! `stack unstack`: stop tracking every stack that holds a branch. The git
//! branches are left alone.

use vstd::prelude::*;

use crate::domain::error::{Fault, StackError};
use crate::domain::stack::{stack_views, Stack, StackFile, StackFileView, StackView};
use crate::seqs;

verus! {

/// The stacks that do not hold a branch of this name.
pub open spec fn lacking(name: Seq<char>) -> spec_fn(StackView) -> bool {
    |s: StackView| !s.has(name)
}

/// Drop every stack that holds the branch `key`. Returns how many there were;
/// an error where there were none.
pub fn unstack(file: &mut StackFile, key: &str) -> (r: Result<usize, StackError>)
    ensures
        final(file)@ == (StackFileView {
            stacks: old(file)@.stacks.filter(lacking(key@)),
            ..old(file)@
        }),
        ({
            let removed = old(file)@.stacks.len() - old(file)@.stacks.filter(lacking(key@)).len();
            if removed == 0 {
                r matches Err(e) && e@ == Fault::NotInStack
            } else {
                r matches Ok(n) && n == removed
            }
        }),
{
    let ghost all = stack_views(file.stacks@);
    let ghost p = lacking(key@);
    let mut kept: Vec<Stack> = Vec::new();
    let total: usize = file.stacks.len();
    let mut i: usize = 0;
    proof {
        seqs::lemma_filter_all(all, p);
        reveal(Seq::filter);
        assert(stack_views(kept@) =~= all.take(0).filter(p));
    }
    while i < total
        invariant
            i <= total,
            total == file.stacks@.len(),
            all == stack_views(file.stacks@),
            p == lacking(key@),
            stack_views(kept@) == all.take(i as int).filter(p),
        decreases total - i,
    {
        proof {
            seqs::lemma_filter_step(all, i as int, p);
        }
        let ghost before = stack_views(kept@);
        assert(all[i as int] == file.stacks@[i as int]@);
        if !file.stacks[i].contains(key) {
            kept.push(file.stacks[i].clone());
            assert(stack_views(kept@) =~= before.push(all[i as int]));
        }
        i = i + 1;
    }
    assert(all.take(total as int) =~= all);
    assert(stack_views(kept@).len() == kept@.len());
    let removed: usize = total - kept.len();
    file.stacks = kept;
    if removed == 0 {
        Err(StackError::NotInStack)
    } else {
        Ok(removed)
    }
}

/// Afterwards no stack holds the branch, and every stack that did not hold it
/// is still there.
pub proof fn law_unstacked_is_gone(stacks: Seq<StackView>, key: Seq<char>)
    ensures
        forall|i: int|
            0 <= i < stacks.filter(lacking(key)).len() ==> !(
            #[trigger] stacks.filter(lacking(key))[i]).has(key),
        forall|i: int|
            0 <= i < stacks.len() && !(#[trigger] stacks[i]).has(key) ==> stacks.filter(
                lacking(key),
            ).contains(stacks[i]),
        stacks.filter(lacking(key)).filter(lacking(key)) == stacks.filter(lacking(key)),
{
    seqs::lemma_filter_all(stacks, lacking(key));
    seqs::lemma_filter_id(stacks.filter(lacking(key)), lacking(key));
    assert forall|i: int| 0 <= i < stacks.filter(lacking(key)).len() implies !(
    #[trigger] stacks.filter(lacking(key))[i]).has(key) by {
        assert(lacking(key)(stacks.filter(lacking(key))[i]));
    }
    assert forall|i: int| 0 <= i < stacks.len() && !(#[trigger] stacks[i]).has(
        key,
    ) implies stacks.filter(lacking(key)).contains(stacks[i]) by {
        assert(lacking(key)(stacks[i]));
    }
}

} // verus!
