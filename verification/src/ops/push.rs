//! `stack push`: push every active branch of the current stack, all or none.

use vstd::prelude::*;

use crate::domain::error::{Fault, StackError};
use crate::domain::stack::{
    branch_ref_views, law_current_is_the_only, live, open_at, BranchView, Stack, StackFile,
    StackFileView, StackView,
};
use crate::git::{GitEvent, GitOps};
use crate::seqs;
use crate::text;

verus! {

/// The names of a list of branches.
pub open spec fn names_of(branches: Seq<BranchView>) -> Seq<Seq<char>> {
    branches.map_values(|b: BranchView| b.branch)
}

/// The names of the branches that are not merged, in stack order.
pub fn active_names(stack: &Stack) -> (r: Vec<String>)
    ensures
        text::views(r@) == names_of(stack@.active()),
{
    let active = stack.active_branches();
    let ghost all = stack@.active();
    let mut out: Vec<String> = Vec::new();
    let mut i: usize = 0;
    assert(text::views(out@) =~= names_of(all).take(0));
    while i < active.len()
        invariant
            i <= active@.len(),
            all == branch_ref_views(active@),
            text::views(out@) == names_of(all).take(i as int),
        decreases active.len() - i,
    {
        let ghost before = text::views(out@);
        assert(all[i as int] == active@[i as int]@);
        out.push(active[i].branch.clone());
        assert(text::views(out@) =~= before.push(all[i as int].branch));
        assert(text::views(out@) =~= names_of(all).take(i + 1));
        i = i + 1;
    }
    assert(text::views(out@) =~= names_of(all));
    out
}

/// What was asked in one run of `push`.
pub struct PushTalk {
    pub current: GitEvent,
    pub push: Seq<GitEvent>,
}

impl PushTalk {
    pub open spec fn events(self) -> Seq<GitEvent> {
        seq![self.current] + self.push
    }
}

/// Whether `talk` is a run of `push` that returns `r`, the number of branches
/// pushed.
pub open spec fn pushes(
    talk: PushTalk,
    file: StackFileView,
    remote: Seq<char>,
    r: Result<usize, StackError>,
) -> bool {
    &&& talk.current matches GitEvent::CurrentBranch { reply }
    &&& match reply {
        Err(f) => talk.push.len() == 0 && (r matches Err(e) && e@ == f@),
        Ok(None) => talk.push.len() == 0 && (r matches Err(e) && e@ == Fault::Other(
            "detached HEAD"@,
        )),
        Ok(Some(branch)) => match file.current(branch@) {
            Err(f) => talk.push.len() == 0 && (r matches Err(e) && e@ == f),
            Ok(stack) => {
                let names = names_of(stack.active());
                &&& crate::ops::submit::pushes(talk.push, remote, names)
                &&& match crate::ops::submit::push_failed(talk.push) {
                    Some(f) => r matches Err(e) && e@ == f,
                    None => r matches Ok(n) && n == names.len(),
                }
            },
        },
    }
}

/// Push every active branch of the current stack. Returns how many there were;
/// nothing is pushed where there are none.
pub fn push<G: GitOps>(git: &mut G, file: &StackFile, remote: &str) -> (r: Result<
    usize,
    StackError,
>)
    ensures
        exists|talk: PushTalk|
            #[trigger] pushes(talk, file@, remote@, r) && final(git).history() == old(
                git,
            ).history() + talk.events(),
{
    let reply = git.current_branch();
    let ghost current = GitEvent::CurrentBranch { reply };
    let ghost nothing = PushTalk { current, push: Seq::empty() };
    assert(git.history() =~= old(git).history() + nothing.events());
    let branch = match reply {
        Err(e) => {
            assert(pushes(nothing, file@, remote@, Err(e)));
            return Err(e);
        },
        Ok(None) => {
            let e = StackError::Other("detached HEAD".to_string());
            assert(pushes(nothing, file@, remote@, Err(e)));
            return Err(e);
        },
        Ok(Some(b)) => b,
    };
    let stack = match file.current_stack(branch.as_str()) {
        Err(e) => {
            assert(pushes(nothing, file@, remote@, Err(e)));
            return Err(e);
        },
        Ok(s) => s,
    };
    let names = active_names(stack);
    assert(text::views(names@).len() == names@.len());
    if names.len() == 0 {
        assert(pushes(nothing, file@, remote@, Ok(0)));
        return Ok(0);
    }
    let reply = git.push_atomic(remote, names.as_slice());
    let ghost talk = PushTalk {
        current,
        push: seq![
            GitEvent::Push { remote: remote@, branches: text::views(names@), reply },
        ],
    };
    assert(git.history() =~= old(git).history() + talk.events());
    match reply {
        Err(e) => {
            assert(pushes(talk, file@, remote@, Err(e)));
            Err(e)
        },
        Ok(()) => {
            let n: usize = names.len();
            assert(pushes(talk, file@, remote@, Ok(n)));
            Ok(n)
        },
    }
}

/// What a push that goes through takes along: every branch of the current stack
/// that is not merged, and no other, to the remote asked for, in one go.
pub proof fn law_push_takes_unmerged(
    talk: PushTalk,
    file: StackFileView,
    remote: Seq<char>,
    n: usize,
)
    requires
        pushes(talk, file, remote, Ok(n)),
    ensures
        talk.events()[0] matches GitEvent::CurrentBranch { reply: Ok(Some(current)) } && exists|
            s: int,
        |
            0 <= s < file.stacks.len() && (#[trigger] file.stacks[s]).has(current@) && {
                let stack = file.stacks[s];
                if n == 0 {
                    talk.events().len() == 1 && forall|i: int| !#[trigger] open_at(stack, i)
                } else {
                    &&& talk.events().len() == 2
                    &&& talk.events()[1] matches GitEvent::Push { remote: to, branches, reply: Ok(_) }
                        && to == remote && branches.len() == n && carries(stack, branches)
                }
            },
{
    let current = talk.current->CurrentBranch_reply->Ok_0->0@;
    assert(talk.events()[0] == talk.current);
    law_current_is_the_only(file, current);
    let stack = file.current(current)->Ok_0;
    let k = choose|k: int| 0 <= k < file.stacks.len() && (#[trigger] file.stacks[k]) == stack;
    assert(file.stacks[k].has(current));
    let names = names_of(stack.active());
    let places = seqs::lemma_filter_places(stack.branches, live());
    assert forall|i: int| #[trigger] open_at(stack, i) implies names.contains(
        stack.branches[i].branch,
    ) by {
        assert(live()(stack.branches[i]));
        let m = choose|m: int| 0 <= m < places.len() && places[m] == i;
        assert(names[m] == stack.branches[i].branch);
    }
    if n == 0 {
        assert forall|i: int| !#[trigger] open_at(stack, i) by {
            if open_at(stack, i) {
                assert(names.contains(stack.branches[i].branch));
            }
        }
    } else {
        assert(talk.events()[1] == talk.push[0]);
        assert forall|m: int| 0 <= m < names.len() implies named_open(stack, #[trigger] names[m]) by {
            let i = places[m];
            assert(live()(stack.branches[i]));
            assert(open_at(stack, i));
        }
    }
}

/// Whether a branch of this name is in the stack and not merged.
pub open spec fn named_open(stack: StackView, name: Seq<char>) -> bool {
    exists|i: int| #[trigger] open_at(stack, i) && stack.branches[i].branch == name
}

/// Whether a list names every branch of a stack that is not merged, and no other.
pub open spec fn carries(stack: StackView, names: Seq<Seq<char>>) -> bool {
    &&& forall|i: int|
        #[trigger] open_at(stack, i) ==> names.contains(stack.branches[i].branch)
    &&& forall|m: int| 0 <= m < names.len() ==> named_open(stack, #[trigger] names[m])
}

} // verus!
