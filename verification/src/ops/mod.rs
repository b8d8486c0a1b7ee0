//! The operations behind the commands.

use vstd::prelude::*;

use crate::domain::error::{Fault, StackError};
use crate::domain::stack::{holding, law_current_is_the_only, StackFile, StackFileView};
use crate::paths;
use crate::seqs;
use crate::text;

pub mod add;
pub mod cascade;
pub mod checkout;
pub mod drop;
pub mod init;
pub mod list;
pub mod navigate;
pub mod pool;
pub mod pr_refresh;
pub mod prune;
pub mod push;
pub mod rebase;
pub mod remove;
pub mod submit;
pub mod submit_report;
pub mod switch;
pub mod sync;
pub mod unstack;
pub mod view;
pub mod walk;

verus! {

/// Where the one stack that holds a branch stands.
pub open spec fn sole_stack(file: StackFileView, branch: Seq<char>) -> Result<int, Fault> {
    match file.current(branch) {
        Ok(_) => Ok(seqs::first_where(file.stacks, holding(branch))->0),
        Err(f) => Err(f),
    }
}

/// A lookup of the one stack that holds a branch finds a stack that holds it.
pub proof fn lemma_sole_stack(file: StackFileView, branch: Seq<char>)
    ensures
        sole_stack(file, branch) matches Ok(k) ==> seqs::first_where(file.stacks, holding(branch))
            == Some(k) && 0 <= k < file.stacks.len() && file.stacks[k].has(branch),
{
    seqs::lemma_filter_all(file.stacks, holding(branch));
    seqs::lemma_first_where_is(file.stacks, holding(branch));
    if sole_stack(file, branch) is Ok {
        let s = file.containing(branch)[0];
        assert(holding(branch)(s));
        assert(file.stacks.contains(s));
        let k = choose|k: int| 0 <= k < file.stacks.len() && file.stacks[k] == s;
        assert(holding(branch)(file.stacks[k]));
    }
}

/// Where the one stack that holds a branch stands: an error where none does,
/// and where more than one does.
pub fn stack_of_branch(file: &StackFile, branch: &str) -> (r: Result<usize, StackError>)
    ensures
        match sole_stack(file@, branch@) {
            Ok(k) => r matches Ok(i) && i == k && i < file.stacks@.len(),
            Err(f) => r matches Err(e) && e@ == f,
        },
{
    proof {
        lemma_sole_stack(file@, branch@);
    }
    match file.current_stack(branch) {
        Err(e) => Err(e),
        Ok(_) => match submit::find_stack(file, branch) {
            Some(k) => Ok(k),
            None => Err(StackError::NotInStack),
        },
    }
}

/// The stack that the current branch belongs to.
pub open spec fn current_place(file: StackFileView, current: Option<Seq<char>>) -> Result<
    int,
    Fault,
> {
    match current {
        Some(branch) => sole_stack(file, branch),
        None => Err(Fault::Other("detached HEAD"@)),
    }
}

/// Where the stack stands that the current branch belongs to. `current` is
/// `None` for a detached head.
pub fn current_stack(file: &StackFile, current: Option<&str>) -> (r: Result<usize, StackError>)
    ensures
        match current_place(file@, text::opt_str_view(current)) {
            Ok(k) => r matches Ok(i) && i == k && i < file.stacks@.len(),
            Err(f) => r matches Err(e) && e@ == f,
        },
{
    match current {
        Some(branch) => stack_of_branch(file, branch),
        None => Err(StackError::Other("detached HEAD".to_string())),
    }
}

/// The branch that is meant: the one named, else the one checked out, which
/// `current` is.
pub fn target_branch(
    branch: Option<String>,
    current: Result<Option<String>, StackError>,
) -> (r: Result<String, StackError>)
    ensures
        match branch {
            Some(b) => r == Ok::<String, StackError>(b),
            None => match current {
                Ok(Some(c)) => r == Ok::<String, StackError>(c),
                Ok(None) => r matches Err(e) && e@ == Fault::Other(
                    "detached HEAD; pass a branch name"@,
                ),
                Err(f) => r == Err::<String, StackError>(f),
            },
        },
{
    match branch {
        Some(b) => Ok(b),
        None => match current {
            Ok(Some(c)) => Ok(c),
            Ok(None) => Err(
                StackError::Other("detached HEAD; pass a branch name".to_string()),
            ),
            Err(e) => Err(e),
        },
    }
}

/// Where a worktree for a branch goes unless the user says otherwise:
/// `~/Worktrees`, then the folder of the repository, then the branch.
pub fn default_worktree_path(home: &str, repo_dir: &str, branch: &str) -> (r: String)
    ensures
        r@ == paths::joined(
            paths::joined(paths::joined(home@, "Worktrees"@), paths::base_name(repo_dir@)),
            branch@,
        ),
{
    let root = paths::join(home, "Worktrees");
    let folder = paths::join(root.as_str(), paths::file_name(repo_dir).as_str());
    paths::join(folder.as_str(), branch)
}

/// Where the worktree goes: nowhere where none is wanted; else where the user
/// says; else the default.
pub fn choose_worktree(no_worktree: bool, chosen: Option<String>, default: &str) -> (r: Option<
    String,
>)
    ensures
        text::opt_view(r) == (if no_worktree {
            None
        } else {
            match chosen {
                Some(p) => Some(p@),
                None => Some(default@),
            }
        }),
{
    if no_worktree {
        None
    } else {
        match chosen {
            Some(p) => Some(p),
            None => Some(default.to_string()),
        }
    }
}

/// Check that a worktree path is free.
pub fn check_worktree_path(path: &str, taken: bool) -> (r: Result<(), StackError>)
    ensures
        if taken {
            r matches Err(e) && e@ == Fault::InvalidArgs(
                "worktree path "@ + path@
                    + " already exists; pass --worktree to choose another or --no-worktree to skip"@,
            )
        } else {
            r is Ok
        },
{
    if taken {
        Err(
            StackError::InvalidArgs(
                text::cat3(
                    "worktree path ",
                    path,
                    " already exists; pass --worktree to choose another or --no-worktree to skip",
                ),
            ),
        )
    } else {
        Ok(())
    }
}

/// The stack that is found for a branch is the only one that holds it. It is an
/// error where none does, and another where two do.
pub proof fn law_found_is_the_only(file: StackFileView, branch: Seq<char>)
    ensures
        match sole_stack(file, branch) {
            Ok(k) => 0 <= k < file.stacks.len() && file.stacks[k].has(branch) && forall|j: int|
                0 <= j < file.stacks.len() && j != k ==> !(#[trigger] file.stacks[j]).has(branch),
            Err(Fault::Disambiguation(n)) => n == branch && exists|j: int, k: int|
                0 <= j < k < file.stacks.len() && (#[trigger] file.stacks[j]).has(branch) && (
                #[trigger] file.stacks[k]).has(branch),
            Err(f) => f is NotInStack && forall|j: int|
                0 <= j < file.stacks.len() ==> !(#[trigger] file.stacks[j]).has(branch),
        },
{
    lemma_sole_stack(file, branch);
    law_current_is_the_only(file, branch);
    if let Ok(k) = sole_stack(file, branch) {
        assert(file.stacks[k].has(branch));
    }
}

/// A detached head belongs to no stack.
pub proof fn law_detached_is_nowhere(file: StackFileView)
    ensures
        current_place(file, None) is Err,
        forall|branch: Seq<char>| #[trigger]
            current_place(file, Some(branch)) == sole_stack(file, branch),
{
}

} // verus!
