//! `pool init`: make one branch off a base, or take over an existing one, and
//! add it to a pool, which is made where it is missing.

use vstd::prelude::*;

use crate::domain::error::{Fault, StackError};
use crate::domain::pool::{PoolBranch, PoolBranchView, PoolFile, PoolFileView};
use crate::domain::stack::{StackFile, StackFileView, Trunk, TrunkView};
use crate::git::{GitEvent, GitOps};
use crate::ops::pool::add::{check_free, taken};
use crate::ops::pool::{
    append_branch, ensure_pool, in_a_pool, law_lookups_tell_holders, lemma_untracked,
    lemma_with_branch_keeps, lemma_with_pool_keeps, pool_slot, stacked, tracked_once, untracked,
    with_branch, with_pool,
};
use crate::seqs;
use crate::text;

verus! {

#[derive(Debug)]
pub struct InitArgs {
    pub pool: Option<String>,
    /// The branch that the new one starts from. Without it, the pool's trunk;
    /// for a pool that is yet to be made, the repository's default branch.
    pub base: Option<String>,
    /// Take over an existing branch in place of making one.
    pub adopt: bool,
    /// Where the worktree goes, where the user says.
    pub worktree: Option<String>,
    /// Make no worktree: check out in the current one.
    pub no_worktree: bool,
    pub branch: String,
}

/// The base, where git need not be asked: the one named, or the trunk of the
/// pool.
pub open spec fn known_base(
    pools: PoolFileView,
    pool: Option<Seq<char>>,
    base: Option<Seq<char>>,
) -> Option<Seq<char>> {
    match base {
        Some(b) => Some(b),
        None => match pools.position(pool) {
            Some(i) => Some(pools.pools[i].trunk.branch),
            None => None,
        },
    }
}

/// Why a branch cannot be made, or taken over, given whether it exists.
pub open spec fn clash(branch: Seq<char>, adopt: bool, known: bool) -> Option<Fault> {
    if adopt && !known {
        Some(
            Fault::InvalidArgs(
                "branch `"@ + branch
                    + "` does not exist (adopt requires an existing branch)"@,
            ),
        )
    } else if !adopt && known {
        Some(
            Fault::InvalidArgs(
                "branch `"@ + branch + "` already exists; use --adopt to take it over"@,
            ),
        )
    } else {
        None
    }
}

/// Check a branch against whether git has it: one taken over must exist, a new
/// one must not.
pub fn check_known(branch: &str, adopt: bool, known: bool) -> (r: Result<(), StackError>)
    ensures
        match clash(branch@, adopt, known) {
            Some(f) => r matches Err(e) && e@ == f,
            None => r is Ok,
        },
{
    if adopt && !known {
        Err(
            StackError::InvalidArgs(
                text::cat3(
                    "branch `",
                    branch,
                    "` does not exist (adopt requires an existing branch)",
                ),
            ),
        )
    } else if !adopt && known {
        Err(
            StackError::InvalidArgs(
                text::cat3("branch `", branch, "` already exists; use --adopt to take it over"),
            ),
        )
    } else {
        Ok(())
    }
}

/// Whether `events` find the head of the base `b` and check the branch, and
/// `r` is what came of it.
pub open spec fn settles(
    b: Seq<char>,
    adopt: bool,
    branch: Seq<char>,
    events: Seq<GitEvent>,
    r: Result<(String, String), StackError>,
) -> bool {
    &&& events.len() > 0
    &&& events[0] matches GitEvent::RevParse { rev, reply }
    &&& rev == b
    &&& match reply {
        Err(e) => events.len() == 1 && r == Err::<(String, String), StackError>(e),
        Ok(head) => {
            &&& events.len() == 2
            &&& events[1] matches GitEvent::BranchExists { name, reply: known }
            &&& name == branch
            &&& match known {
                Err(e) => r == Err::<(String, String), StackError>(e),
                Ok(yes) => match clash(branch, adopt, yes) {
                    Some(f) => r matches Err(e) && e@ == f,
                    None => r matches Ok(base) && base.0@ == b && base.1 == head,
                },
            }
        },
    }
}

/// Whether `events` are what is asked before a branch is made, and `r` is what
/// came of it: the base and its head, or why the branch cannot be made.
pub open spec fn prepares(
    stacks: StackFileView,
    pools: PoolFileView,
    args: InitArgs,
    events: Seq<GitEvent>,
    r: Result<(String, String), StackError>,
) -> bool {
    match taken(stacks, pools, args.branch@) {
        Some(f) => events.len() == 0 && (r matches Err(e) && e@ == f),
        None => match known_base(pools, text::opt_view(args.pool), text::opt_view(args.base)) {
            Some(b) => settles(b, args.adopt, args.branch@, events, r),
            None => {
                &&& events.len() > 0
                &&& events[0] matches GitEvent::TrunkBranch { reply }
                &&& match reply {
                    Err(e) => events.len() == 1 && r == Err::<(String, String), StackError>(e),
                    Ok(b) => settles(b@, args.adopt, args.branch@, events.skip(1), r),
                }
            },
        },
    }
}

fn settle<G: GitOps>(git: &mut G, base: String, adopt: bool, branch: &str) -> (r: Result<
    (String, String),
    StackError,
>)
    ensures
        exists|events: Seq<GitEvent>|
            #[trigger] settles(base@, adopt, branch@, events, r) && final(git).history() == old(
                git,
            ).history() + events,
{
    let ghost start = git.history();
    let reply = git.rev_parse(base.as_str());
    let ghost first = GitEvent::RevParse { rev: base@, reply };
    let head = match reply {
        Err(e) => {
            assert(git.history() =~= start + seq![first]);
            assert(settles(base@, adopt, branch@, seq![first], Err(e)));
            return Err(e);
        },
        Ok(head) => head,
    };
    let known = git.branch_exists(branch);
    let ghost events = seq![first, GitEvent::BranchExists { name: branch@, reply: known }];
    assert(git.history() =~= start + events);
    match known {
        Err(e) => {
            assert(settles(base@, adopt, branch@, events, Err(e)));
            Err(e)
        },
        Ok(yes) => match check_known(branch, adopt, yes) {
            Err(e) => {
                assert(settles(base@, adopt, branch@, events, Err(e)));
                Err(e)
            },
            Ok(()) => {
                let ghost b = base@;
                let found = (base, head);
                assert(settles(b, adopt, branch@, events, Ok(found)));
                Ok(found)
            },
        },
    }
}

/// Check that the branch can be made, and find its base: name and head.
pub fn prepare<G: GitOps>(
    git: &mut G,
    stacks: &StackFile,
    pools: &PoolFile,
    args: &InitArgs,
) -> (r: Result<(String, String), StackError>)
    ensures
        exists|events: Seq<GitEvent>|
            #[trigger] prepares(stacks@, pools@, *args, events, r) && final(git).history() == old(
                git,
            ).history() + events,
{
    let ghost start = git.history();
    match check_free(stacks, pools, args.branch.as_str()) {
        Err(e) => {
            let ghost none = Seq::<GitEvent>::empty();
            assert(git.history() =~= start + none);
            assert(prepares(stacks@, pools@, *args, none, Err(e)));
            return Err(e);
        },
        Ok(()) => {},
    }
    let known: Option<String> = match &args.base {
        Some(b) => Some(b.clone()),
        None => {
            let wanted = match &args.pool {
                Some(n) => Some(n.as_str()),
                None => None,
            };
            assert(text::opt_str_view(wanted) == text::opt_view(args.pool));
            match pools.pool_position(wanted) {
                Some(i) => {
                    assert(pools@.pools[i as int] == pools.pools@[i as int]@);
                    Some(pools.pools[i].trunk.branch.clone())
                },
                None => None,
            }
        },
    };
    assert(text::opt_view(known) == known_base(
        pools@,
        text::opt_view(args.pool),
        text::opt_view(args.base),
    ));
    match known {
        Some(b) => {
            let r = settle(git, b, args.adopt, args.branch.as_str());
            proof {
                let events = choose|events: Seq<GitEvent>|
                    #[trigger] settles(b@, args.adopt, args.branch@, events, r)
                        && git.history() == start + events;
                assert(prepares(stacks@, pools@, *args, events, r));
            }
            r
        },
        None => {
            let reply = git.trunk_branch();
            let ghost first = GitEvent::TrunkBranch { reply };
            let ghost mid = git.history();
            match reply {
                Err(e) => {
                    assert(git.history() =~= start + seq![first]);
                    assert(prepares(stacks@, pools@, *args, seq![first], Err(e)));
                    Err(e)
                },
                Ok(b) => {
                    let r = settle(git, b, args.adopt, args.branch.as_str());
                    proof {
                        let rest = choose|rest: Seq<GitEvent>|
                            #[trigger] settles(b@, args.adopt, args.branch@, rest, r)
                                && git.history() == mid + rest;
                        let events = seq![first] + rest;
                        assert(events.skip(1) =~= rest);
                        assert(git.history() =~= start + events);
                        assert(prepares(stacks@, pools@, *args, events, r));
                    }
                    r
                },
            }
        },
    }
}

/// The branch as it comes into the pool.
pub open spec fn new_branch(
    branch: Seq<char>,
    head: Seq<char>,
    base: TrunkView,
) -> PoolBranchView {
    PoolBranchView {
        branch,
        head: Some(head),
        base_branch: base.branch,
        base: base.head,
        pull_request: None,
    }
}

/// The file with the branch in its pool.
pub open spec fn recorded(
    pools: PoolFileView,
    pool: Option<Seq<char>>,
    branch: Seq<char>,
    head: Seq<char>,
    base: TrunkView,
) -> PoolFileView {
    with_branch(
        with_pool(pools, pool, base, None),
        pool_slot(pools, pool),
        new_branch(branch, head, base),
    )
}

/// Record the branch, whose head is `head`, in its pool. A pool that is made
/// for it has the base for its trunk. Returns where the pool stands.
pub fn record(pools: &mut PoolFile, args: &InitArgs, base: &Trunk, head: &str) -> (r: usize)
    ensures
        r == pool_slot(old(pools)@, text::opt_view(args.pool)),
        r < final(pools).pools@.len(),
        final(pools)@ == recorded(
            old(pools)@,
            text::opt_view(args.pool),
            args.branch@,
            head@,
            base@,
        ),
{
    let i: usize = ensure_pool(pools, &args.pool, base.clone(), None);
    let b = PoolBranch {
        branch: args.branch.clone(),
        head: Some(head.to_string()),
        base_branch: base.branch.clone(),
        base: base.head.clone(),
        pull_request: None,
    };
    append_branch(pools, i, b);
    i
}

/// A branch that is made for a pool is in that pool alone, once, and in no
/// stack; the branches that were tracked so before still are.
pub proof fn law_init_tracks_once(
    stacks: StackFileView,
    pools: PoolFileView,
    pool: Option<Seq<char>>,
    branch: Seq<char>,
    head: Seq<char>,
    base: TrunkView,
)
    requires
        tracked_once(stacks, pools),
        taken(stacks, pools, branch) is None,
    ensures
        tracked_once(stacks, recorded(pools, pool, branch, head, base)),
        recorded(pools, pool, branch, head, base).pools[pool_slot(pools, pool)].has(branch),
{
    lemma_untracked(stacks, pools, branch);
    lemma_with_pool_keeps(stacks, pools, pool, base, None);
    let mid = with_pool(pools, pool, base, None);
    let slot = pool_slot(pools, pool);
    assert(untracked(stacks, mid, branch)) by {
        assert forall|p: int| 0 <= p < mid.pools.len() implies !(#[trigger] mid.pools[p]).has(
            branch,
        ) by {
            if p < pools.pools.len() {
                assert(mid.pools[p] == pools.pools[p]);
            }
        }
    }
    let b = new_branch(branch, head, base);
    lemma_with_branch_keeps(stacks, mid, slot, b);
    let list = mid.pools[slot].branches;
    assert(list.push(b)[list.len() as int].branch == branch);
}

/// What preparing a branch finds where it goes through. No stack and no pool
/// holds the branch, and git has it exactly where one is to be taken over. The
/// base is the one asked for, or else the trunk of the pool of that name, or else,
/// where there is no such pool, the default branch that git gives. Its head is
/// the commit that git gives for it.
pub proof fn law_prepared_from_base(
    stacks: StackFileView,
    pools: PoolFileView,
    args: InitArgs,
    events: Seq<GitEvent>,
    base: String,
    head: String,
)
    requires
        prepares(stacks, pools, args, events, Ok((base, head))),
    ensures
        !stacked(stacks, args.branch@) && !in_a_pool(pools, args.branch@),
        events.len() >= 2,
        events[events.len() - 2] matches GitEvent::RevParse { rev, reply: Ok(h) } && rev == base@
            && h@ == head@,
        events[events.len() - 1] matches GitEvent::BranchExists { name, reply: Ok(known) } && name
            == args.branch@ && known == args.adopt,
        match args.base {
            Some(b) => base@ == b@,
            None => {
                ||| exists|i: int|
                    0 <= i < pools.pools.len() && (#[trigger] pools.pools[i]).name
                        == text::opt_view(args.pool) && base@ == pools.pools[i].trunk.branch
                ||| {
                    &&& forall|i: int|
                        0 <= i < pools.pools.len() ==> (#[trigger] pools.pools[i]).name
                            != text::opt_view(args.pool)
                    &&& events[0] matches GitEvent::TrunkBranch { reply: Ok(b) } && b@ == base@
                }
            },
        },
{
    law_lookups_tell_holders(stacks, pools, args.branch@);
    let called = crate::domain::pool::called(text::opt_view(args.pool));
    seqs::lemma_first_where_is(pools.pools, called);
    if args.base is None {
        match pools.position(text::opt_view(args.pool)) {
            Some(i) => {
                assert(called(pools.pools[i]));
            },
            None => {
                assert forall|i: int| 0 <= i < pools.pools.len() implies (
                #[trigger] pools.pools[i]).name != text::opt_view(args.pool) by {
                    assert(!called(pools.pools[i]));
                }
            },
        }
    }
}

/// A branch that a stack or a pool holds, that is there though it should be new,
/// or that is missing though it should be taken over, is refused.
pub proof fn law_prepare_refuses(
    stacks: StackFileView,
    pools: PoolFileView,
    args: InitArgs,
    events: Seq<GitEvent>,
    r: Result<(String, String), StackError>,
)
    requires
        prepares(stacks, pools, args, events, r),
    ensures
        stacked(stacks, args.branch@) || in_a_pool(pools, args.branch@) ==> r is Err
            && events.len() == 0,
        events.len() > 0 && (events.last() matches GitEvent::BranchExists { reply: Ok(known), .. }
            && known != args.adopt) ==> r is Err,
        !stacked(stacks, args.branch@) && !in_a_pool(pools, args.branch@) && events.len() > 0 && (
        events.last() matches GitEvent::BranchExists { reply: Ok(known), .. } && known
            == args.adopt) ==> r is Ok,
{
    law_lookups_tell_holders(stacks, pools, args.branch@);
}

/// What is recorded of a new branch: it stands last in the pool of that name, at
/// the head given, on the base given, with no pull request. A pool that is made
/// for it has the base for its trunk. Nothing else changes.
pub proof fn law_recorded_on_base(
    pools: PoolFileView,
    pool: Option<Seq<char>>,
    branch: Seq<char>,
    head: Seq<char>,
    base: TrunkView,
    at: int,
)
    requires
        at == pool_slot(pools, pool),
    ensures
        ({
            let after = recorded(pools, pool, branch, head, base);
            let is = after.pools[at];
            let b = is.branches.last();
            &&& 0 <= at < after.pools.len()
            &&& is.name == pool
            &&& is.branches.len() > 0
            &&& b.branch == branch && b.head == Some(head) && b.base_branch == base.branch
                && b.base == base.head && b.pull_request is None
            &&& if at < pools.pools.len() {
                &&& after.pools.len() == pools.pools.len()
                &&& is.branches.drop_last() == pools.pools[at].branches
                &&& is.trunk == pools.pools[at].trunk && is.last_refreshed_at
                    == pools.pools[at].last_refreshed_at
            } else {
                &&& after.pools.len() == pools.pools.len() + 1
                &&& is.branches.len() == 1 && is.trunk == base && is.last_refreshed_at is None
                &&& forall|p: int|
                    0 <= p < pools.pools.len() ==> (#[trigger] pools.pools[p]).name != pool
            }
            &&& forall|p: int|
                0 <= p < pools.pools.len() && p != at ==> #[trigger] after.pools[p]
                    == pools.pools[p]
            &&& after.schema_version == pools.schema_version && after.repository
                == pools.repository
        }),
{
    let called = crate::domain::pool::called(pool);
    seqs::lemma_first_where_is(pools.pools, called);
    let after = recorded(pools, pool, branch, head, base);
    if pools.position(pool) is Some {
        assert(called(pools.pools[at]));
        assert(after.pools[at].branches.drop_last() =~= pools.pools[at].branches);
    } else {
        assert forall|p: int| 0 <= p < pools.pools.len() implies (#[trigger] pools.pools[p]).name
            != pool by {
            assert(!called(pools.pools[p]));
        }
    }
}

} // verus!
