//! `pool add`: add existing local branches to a pool, which is made where it
//! is missing. The base of each branch is the one the caller names; else that
//! of its pull request; else the pool's trunk.

use vstd::prelude::*;

use crate::domain::error::{Fault, StackError};
use crate::domain::pool::{PoolBranch, PoolBranchView, PoolFile, PoolFileView};
use crate::domain::stack::{StackFile, StackFileView, Trunk, TrunkView};
use crate::git::{GitEvent, GitOps};
use crate::github::{GitHub, HubEvent};
use crate::ops::pool::{
    append_branch, ensure_pool, in_a_pool, law_lookups_tell_holders, lemma_untracked,
    lemma_with_branch_keeps, lemma_with_pool_keeps, pool_slot, stacked, tracked_once, untracked,
    with_branch, with_pool,
};
use crate::seqs;
use crate::text;

verus! {

#[derive(Debug)]
pub struct AddArgs {
    pub pool: Option<String>,
    /// The base, where the caller names one.
    pub base: Option<String>,
    pub branches: Vec<String>,
}

/// Why a branch cannot be added, given whether it exists locally.
pub open spec fn refusal(
    stacks: StackFileView,
    pools: PoolFileView,
    branch: Seq<char>,
    local: bool,
) -> Option<Fault> {
    if !local {
        Some(Fault::InvalidArgs("branch `"@ + branch + "` does not exist locally"@))
    } else {
        taken(stacks, pools, branch)
    }
}

/// Why a branch cannot come into a pool: a stack or a pool holds it.
pub open spec fn taken(stacks: StackFileView, pools: PoolFileView, branch: Seq<char>) -> Option<
    Fault,
> {
    if stacks.containing(branch).len() > 0 {
        Some(
            Fault::InvalidArgs(
                "branch `"@ + branch
                    + "` is already in a stack; remove it with `stack drop` first"@,
            ),
        )
    } else if pools.position_containing(branch) is Some {
        Some(Fault::InvalidArgs("branch `"@ + branch + "` is already in a pool"@))
    } else {
        None
    }
}

/// Check that no stack and no pool holds a branch.
pub fn check_free(stacks: &StackFile, pools: &PoolFile, branch: &str) -> (r: Result<
    (),
    StackError,
>)
    ensures
        match taken(stacks@, pools@, branch@) {
            Some(f) => r matches Err(e) && e@ == f,
            None => r is Ok,
        },
{
    let holders = stacks.stacks_containing(branch);
    assert(crate::domain::stack::stack_ref_views(holders@).len() == holders@.len());
    if holders.len() > 0 {
        return Err(
            StackError::InvalidArgs(
                text::cat3(
                    "branch `",
                    branch,
                    "` is already in a stack; remove it with `stack drop` first",
                ),
            ),
        );
    }
    if pools.pool_position_containing(branch).is_some() {
        return Err(
            StackError::InvalidArgs(text::cat3("branch `", branch, "` is already in a pool")),
        );
    }
    Ok(())
}

/// What a check of one branch came to.
pub open spec fn check_fault(
    stacks: StackFileView,
    pools: PoolFileView,
    branch: Seq<char>,
    e: GitEvent,
) -> Option<Fault> {
    match e {
        GitEvent::BranchExists { reply: Err(e), .. } => Some(e@),
        GitEvent::BranchExists { reply: Ok(local), .. } => refusal(stacks, pools, branch, local),
        _ => None,
    }
}

/// Whether `checks` check the branches from the first on, none after one that
/// was refused.
pub open spec fn checks_follow(
    stacks: StackFileView,
    pools: PoolFileView,
    branches: Seq<Seq<char>>,
    checks: Seq<GitEvent>,
) -> bool {
    &&& checks.len() <= branches.len()
    &&& forall|i: int|
        0 <= i < checks.len() ==> (
        #[trigger] checks[i] matches GitEvent::BranchExists { name, .. } && name == branches[i])
    &&& forall|i: int|
        0 <= i < checks.len() - 1 ==> check_fault(
            stacks,
            pools,
            branches[i],
            #[trigger] checks[i],
        ) is None
}

/// Why the last check refused its branch.
pub open spec fn checks_fault(
    stacks: StackFileView,
    pools: PoolFileView,
    branches: Seq<Seq<char>>,
    checks: Seq<GitEvent>,
) -> Option<Fault> {
    if checks.len() == 0 {
        None
    } else {
        check_fault(stacks, pools, branches[checks.len() - 1], checks.last())
    }
}

/// Check every branch: it exists locally, and no stack and no pool holds it.
fn check_all<G: GitOps>(
    git: &mut G,
    stacks: &StackFile,
    pools: &PoolFile,
    branches: &Vec<String>,
) -> (r: (Result<(), StackError>, Ghost<Seq<GitEvent>>))
    ensures
        final(git).history() == old(git).history() + r.1@,
        checks_follow(stacks@, pools@, text::views(branches@), r.1@),
        match r.0 {
            Ok(()) => r.1@.len() == branches@.len() && checks_fault(
                stacks@,
                pools@,
                text::views(branches@),
                r.1@,
            ) is None,
            Err(e) => checks_fault(stacks@, pools@, text::views(branches@), r.1@) == Some(e@),
        },
{
    let ghost names = text::views(branches@);
    let ghost mut checks: Seq<GitEvent> = Seq::empty();
    let mut i: usize = 0;
    assert(git.history() =~= old(git).history() + checks);
    while i < branches.len()
        invariant
            i <= branches.len(),
            names == text::views(branches@),
            checks.len() == i,
            git.history() == old(git).history() + checks,
            checks_follow(stacks@, pools@, names, checks),
            checks_fault(stacks@, pools@, names, checks) is None,
        decreases branches.len() - i,
    {
        let b = branches[i].as_str();
        assert(names[i as int] == b@);
        let reply = git.branch_exists(b);
        let ghost more = checks.push(GitEvent::BranchExists { name: b@, reply });
        proof {
            assert(git.history() =~= old(git).history() + more);
            assert forall|j: int| 0 <= j < more.len() implies (
            #[trigger] more[j] matches GitEvent::BranchExists { name, .. } && name
                == names[j]) by {
                if j < i {
                    assert(more[j] == checks[j]);
                }
            }
            assert forall|j: int| 0 <= j < more.len() - 1 implies check_fault(
                stacks@,
                pools@,
                names[j],
                #[trigger] more[j],
            ) is None by {
                assert(more[j] == checks[j]);
            }
            checks = more;
        }
        match reply {
            Err(e) => {
                return (Err(e), Ghost(checks));
            },
            Ok(local) => {
                if !local {
                    return (
                        Err(
                            StackError::InvalidArgs(
                                text::cat3("branch `", b, "` does not exist locally"),
                            ),
                        ),
                        Ghost(checks),
                    );
                }
                if let Err(e) = check_free(stacks, pools, b) {
                    return (Err(e), Ghost(checks));
                }
            },
        }
        i = i + 1;
    }
    (Ok(()), Ghost(checks))
}

/// What was asked to add one branch: its head, its pull request where the
/// caller names no base, and its base.
pub struct AddTalk {
    pub git: Seq<GitEvent>,
    pub hub: Seq<HubEvent>,
}

impl AddTalk {
    /// The name of the base. A failed lookup counts as no pull request.
    pub open spec fn base_name(self, base: Option<Seq<char>>, trunk: Seq<char>) -> Seq<char> {
        match base {
            Some(b) => b,
            None => match self.hub[0] {
                HubEvent::FindByHead { reply: Ok(Some(pr)), .. } => pr@.base_ref,
                _ => trunk,
            },
        }
    }

    pub open spec fn complete(
        self,
        branch: Seq<char>,
        base: Option<Seq<char>>,
        trunk: TrunkView,
    ) -> bool {
        &&& self.git.len() > 0
        &&& self.git[0] matches GitEvent::RevParse { rev, reply }
        &&& rev == branch
        &&& if reply is Err {
            self.git.len() == 1 && self.hub.len() == 0
        } else {
            &&& match base {
                Some(_) => self.hub.len() == 0,
                None => self.hub.len() == 1 && (
                self.hub[0] matches HubEvent::FindByHead { branch: b, .. } && b == branch),
            }
            &&& self.git.len() == 2
            &&& self.git[1] matches GitEvent::RevParse { rev: b, .. } && b == self.base_name(
                base,
                trunk.branch,
            )
        }
    }

    pub open spec fn failed(self) -> Option<Fault> {
        match self.git[0] {
            GitEvent::RevParse { reply: Err(e), .. } => Some(e@),
            _ => None,
        }
    }

    /// The branch that is added. A base that git cannot resolve is taken to be
    /// at the trunk's recorded head.
    pub open spec fn result(
        self,
        branch: Seq<char>,
        base: Option<Seq<char>>,
        trunk: TrunkView,
    ) -> PoolBranchView {
        PoolBranchView {
            branch,
            head: match self.git[0] {
                GitEvent::RevParse { reply: Ok(h), .. } => Some(h@),
                _ => None,
            },
            base_branch: self.base_name(base, trunk.branch),
            base: match self.git[1] {
                GitEvent::RevParse { reply: Ok(b), .. } => b@,
                _ => trunk.head,
            },
            pull_request: None,
        }
    }
}

/// The file after the first branches were added to the pool at `index`.
pub open spec fn added(
    start: PoolFileView,
    index: int,
    branches: Seq<Seq<char>>,
    base: Option<Seq<char>>,
    talks: Seq<AddTalk>,
) -> PoolFileView
    decreases talks.len(),
{
    if talks.len() == 0 {
        start
    } else {
        let before = added(start, index, branches, base, talks.drop_last());
        if talks.last().failed() is Some {
            before
        } else {
            with_branch(
                before,
                index,
                talks.last().result(
                    branches[talks.len() - 1],
                    base,
                    start.pools[index].trunk,
                ),
            )
        }
    }
}

/// Whether `talks` add the branches from the first on, none after one that
/// failed.
pub open spec fn adds_follow(
    trunk: TrunkView,
    branches: Seq<Seq<char>>,
    base: Option<Seq<char>>,
    talks: Seq<AddTalk>,
) -> bool {
    &&& talks.len() <= branches.len()
    &&& forall|i: int|
        0 <= i < talks.len() ==> (#[trigger] talks[i]).complete(branches[i], base, trunk)
    &&& forall|i: int| 0 <= i < talks.len() - 1 ==> (#[trigger] talks[i]).failed() is None
}

/// What was asked of git, branch after branch.
pub open spec fn git_events(talks: Seq<AddTalk>) -> Seq<GitEvent>
    decreases talks.len(),
{
    if talks.len() == 0 {
        Seq::empty()
    } else {
        git_events(talks.drop_last()) + talks.last().git
    }
}

/// What was asked of GitHub, branch after branch.
pub open spec fn hub_events(talks: Seq<AddTalk>) -> Seq<HubEvent>
    decreases talks.len(),
{
    if talks.len() == 0 {
        Seq::empty()
    } else {
        hub_events(talks.drop_last()) + talks.last().hub
    }
}

fn make_branch<G: GitOps, H: GitHub>(
    git: &mut G,
    gh: &mut H,
    branch: &str,
    base: &Option<String>,
    trunk: &Trunk,
) -> (r: (Result<PoolBranch, StackError>, Ghost<AddTalk>))
    ensures
        final(git).history() == old(git).history() + r.1@.git,
        final(gh).history() == old(gh).history() + r.1@.hub,
        r.1@.complete(branch@, text::opt_view(*base), trunk@),
        match r.0 {
            Ok(b) => r.1@.failed() is None && b@ == r.1@.result(
                branch@,
                text::opt_view(*base),
                trunk@,
            ),
            Err(e) => r.1@.failed() == Some(e@),
        },
{
    let ghost mut asked: Seq<GitEvent> = Seq::empty();
    let ghost mut looked: Seq<HubEvent> = Seq::empty();
    assert(gh.history() =~= old(gh).history() + looked);
    let reply = git.rev_parse(branch);
    proof {
        asked = asked.push(GitEvent::RevParse { rev: branch@, reply });
    }
    assert(git.history() =~= old(git).history() + asked);
    let head = match reply {
        Err(e) => {
            return (Err(e), Ghost(AddTalk { git: asked, hub: looked }));
        },
        Ok(h) => h,
    };
    let name = match base {
        Some(b) => b.clone(),
        None => {
            let reply = gh.find_pr_by_head(branch);
            proof {
                looked = looked.push(HubEvent::FindByHead { branch: branch@, reply });
            }
            assert(gh.history() =~= old(gh).history() + looked);
            match reply {
                Ok(Some(pr)) => pr.base_ref,
                _ => trunk.branch.clone(),
            }
        },
    };
    let reply = git.rev_parse(name.as_str());
    proof {
        asked = asked.push(GitEvent::RevParse { rev: name@, reply });
    }
    assert(git.history() =~= old(git).history() + asked);
    let sha = match reply {
        Ok(s) => s,
        Err(_) => trunk.head.clone(),
    };
    let b = PoolBranch {
        branch: branch.to_string(),
        head: Some(head),
        base_branch: name,
        base: sha,
        pull_request: None,
    };
    (Ok(b), Ghost(AddTalk { git: asked, hub: looked }))
}

fn add_all<G: GitOps, H: GitHub>(
    git: &mut G,
    gh: &mut H,
    pools: &mut PoolFile,
    index: usize,
    branches: &Vec<String>,
    base: &Option<String>,
) -> (r: (Result<(), StackError>, Ghost<Seq<AddTalk>>))
    requires
        index < old(pools).pools@.len(),
    ensures
        final(git).history() == old(git).history() + git_events(r.1@),
        final(gh).history() == old(gh).history() + hub_events(r.1@),
        adds_follow(
            old(pools)@.pools[index as int].trunk,
            text::views(branches@),
            text::opt_view(*base),
            r.1@,
        ),
        final(pools)@ == added(
            old(pools)@,
            index as int,
            text::views(branches@),
            text::opt_view(*base),
            r.1@,
        ),
        match r.0 {
            Ok(()) => r.1@.len() == branches@.len() && (r.1@.len() > 0
                ==> r.1@.last().failed() is None),
            Err(e) => r.1@.len() > 0 && r.1@.last().failed() == Some(e@),
        },
{
    let ghost start = pools@;
    let ghost names = text::views(branches@);
    let ghost wanted = text::opt_view(*base);
    let trunk = pools.pools[index].trunk.clone();
    assert(start.pools[index as int] == pools.pools@[index as int]@);
    let ghost mut talks: Seq<AddTalk> = Seq::empty();
    let mut i: usize = 0;
    assert(git.history() =~= old(git).history() + git_events(talks));
    assert(gh.history() =~= old(gh).history() + hub_events(talks));
    while i < branches.len()
        invariant
            i <= branches.len(),
            index < pools.pools@.len(),
            start == old(pools)@,
            names == text::views(branches@),
            wanted == text::opt_view(*base),
            trunk@ == start.pools[index as int].trunk,
            talks.len() == i,
            adds_follow(trunk@, names, wanted, talks),
            talks.len() > 0 ==> talks.last().failed() is None,
            pools@ == added(start, index as int, names, wanted, talks),
            git.history() == old(git).history() + git_events(talks),
            gh.history() == old(gh).history() + hub_events(talks),
        decreases branches.len() - i,
    {
        assert(names[i as int] == branches@[i as int]@);
        let (made, Ghost(talk)) = make_branch(git, gh, branches[i].as_str(), base, &trunk);
        let ghost more = talks.push(talk);
        proof {
            assert(more.drop_last() =~= talks);
            assert(git.history() =~= old(git).history() + git_events(more));
            assert(gh.history() =~= old(gh).history() + hub_events(more));
            assert forall|j: int| 0 <= j < more.len() implies (#[trigger] more[j]).complete(
                names[j],
                wanted,
                trunk@,
            ) by {
                if j < i {
                    assert(more[j] == talks[j]);
                }
            }
            assert forall|j: int| 0 <= j < more.len() - 1 implies (
            #[trigger] more[j]).failed() is None by {
                assert(more[j] == talks[j]);
            }
        }
        match made {
            Err(e) => {
                return (Err(e), Ghost(more));
            },
            Ok(b) => {
                append_branch(pools, index, b);
            },
        }
        proof {
            talks = more;
        }
        i = i + 1;
    }
    (Ok(()), Ghost(talks))
}

/// What was asked in one run of `add`.
pub struct RunTalk {
    pub checks: Seq<GitEvent>,
    pub trunk: Seq<GitEvent>,
    pub adds: Seq<AddTalk>,
}

impl RunTalk {
    pub open spec fn git(self) -> Seq<GitEvent> {
        self.checks + self.trunk + git_events(self.adds)
    }

    pub open spec fn hub(self) -> Seq<HubEvent> {
        hub_events(self.adds)
    }
}

/// Whether `trunk` asks for the trunk of a pool to be made.
pub open spec fn asks_trunk(trunk: Seq<GitEvent>) -> bool {
    &&& trunk.len() > 0
    &&& trunk[0] matches GitEvent::TrunkBranch { reply }
    &&& match reply {
        Err(_) => trunk.len() == 1,
        Ok(b) => trunk.len() == 2 && (trunk[1] matches GitEvent::RevParse { rev, .. } && rev
            == b@),
    }
}

/// The trunk that was answered.
pub open spec fn trunk_answer(trunk: Seq<GitEvent>) -> Result<TrunkView, Fault> {
    match trunk[0] {
        GitEvent::TrunkBranch { reply: Ok(b) } => match trunk[1] {
            GitEvent::RevParse { reply: Ok(h), .. } => Ok(TrunkView { branch: b@, head: h@ }),
            GitEvent::RevParse { reply: Err(e), .. } => Err(e@),
            _ => Err(Fault::NotInStack),
        },
        GitEvent::TrunkBranch { reply: Err(e) } => Err(e@),
        _ => Err(Fault::NotInStack),
    }
}

fn ask_trunk<G: GitOps>(git: &mut G) -> (r: (Result<Trunk, StackError>, Ghost<Seq<GitEvent>>))
    ensures
        final(git).history() == old(git).history() + r.1@,
        asks_trunk(r.1@),
        match trunk_answer(r.1@) {
            Ok(t) => r.0 matches Ok(trunk) && trunk@ == t,
            Err(f) => r.0 matches Err(e) && e@ == f,
        },
{
    let ghost mut asked: Seq<GitEvent> = Seq::empty();
    let reply = git.trunk_branch();
    proof {
        asked = asked.push(GitEvent::TrunkBranch { reply });
    }
    assert(git.history() =~= old(git).history() + asked);
    let branch = match reply {
        Err(e) => {
            return (Err(e), Ghost(asked));
        },
        Ok(b) => b,
    };
    let reply = git.rev_parse(branch.as_str());
    proof {
        asked = asked.push(GitEvent::RevParse { rev: branch@, reply });
    }
    assert(git.history() =~= old(git).history() + asked);
    match reply {
        Err(e) => (Err(e), Ghost(asked)),
        Ok(head) => (Ok(Trunk { branch, head }), Ghost(asked)),
    }
}

/// Whether `talk` adds the branches, once they are all checked, to the pool
/// `name`.
pub open spec fn adds_checked(
    talk: RunTalk,
    before: PoolFileView,
    name: Option<Seq<char>>,
    base: Option<Seq<char>>,
    branches: Seq<Seq<char>>,
    after: PoolFileView,
    r: Result<usize, StackError>,
) -> bool {
    let index = pool_slot(before, name);
    let known = before.position(name) is Some;
    &&& if known {
        talk.trunk.len() == 0
    } else {
        asks_trunk(talk.trunk)
    }
    &&& if !known && trunk_answer(talk.trunk) is Err {
        &&& talk.adds.len() == 0 && after == before
        &&& r matches Err(e) && e@ == trunk_answer(talk.trunk)->Err_0
    } else {
        let start = if known {
            before
        } else {
            with_pool(before, name, trunk_answer(talk.trunk)->Ok_0, None)
        };
        &&& adds_follow(start.pools[index].trunk, branches, base, talk.adds)
        &&& after == added(start, index, branches, base, talk.adds)
        &&& match r {
            Ok(k) => k == index && talk.adds.len() == branches.len() && talk.adds.last().failed() is None,
            Err(e) => talk.adds.len() > 0 && talk.adds.last().failed() == Some(e@),
        }
    }
}

/// Whether `talk` is a run of `add` that turns one file into another and
/// returns `r`.
pub open spec fn runs(
    talk: RunTalk,
    stacks: StackFileView,
    before: PoolFileView,
    name: Option<Seq<char>>,
    base: Option<Seq<char>>,
    branches: Seq<Seq<char>>,
    after: PoolFileView,
    r: Result<usize, StackError>,
) -> bool {
    if branches.len() == 0 {
        &&& talk.checks.len() == 0 && talk.trunk.len() == 0 && talk.adds.len() == 0
        &&& after == before
        &&& r matches Err(e) && e@ == Fault::InvalidArgs("supply at least one branch name"@)
    } else {
        &&& checks_follow(stacks, before, branches, talk.checks)
        &&& match checks_fault(stacks, before, branches, talk.checks) {
            Some(f) => {
                &&& talk.trunk.len() == 0 && talk.adds.len() == 0 && after == before
                &&& r matches Err(e) && e@ == f
            },
            None => {
                &&& talk.checks.len() == branches.len()
                &&& adds_checked(talk, before, name, base, branches, after, r)
            },
        }
    }
}

/// Add local branches to a pool. Returns where the pool stands.
pub fn add<G: GitOps, H: GitHub>(
    git: &mut G,
    gh: &mut H,
    stacks: &StackFile,
    pools: &mut PoolFile,
    args: &AddArgs,
) -> (r: Result<usize, StackError>)
    ensures
        exists|talk: RunTalk|
            #[trigger] runs(
                talk,
                stacks@,
                old(pools)@,
                text::opt_view(args.pool),
                text::opt_view(args.base),
                text::views(args.branches@),
                final(pools)@,
                r,
            ) && final(git).history() == old(git).history() + talk.git() && final(gh).history()
                == old(gh).history() + talk.hub(),
{
    let ghost before = pools@;
    let ghost name = text::opt_view(args.pool);
    let ghost base = text::opt_view(args.base);
    let ghost names = text::views(args.branches@);
    let ghost none: Seq<AddTalk> = Seq::empty();
    let ghost nothing: Seq<GitEvent> = Seq::empty();
    assert(names.len() == args.branches@.len());
    if args.branches.len() == 0 {
        let ghost talk = RunTalk { checks: nothing, trunk: nothing, adds: none };
        assert(git.history() =~= old(git).history() + talk.git());
        assert(gh.history() =~= old(gh).history() + talk.hub());
        let e = StackError::InvalidArgs("supply at least one branch name".to_string());
        assert(runs(talk, stacks@, before, name, base, names, pools@, Err(e)));
        return Err(e);
    }
    let (checked, Ghost(checks)) = check_all(git, stacks, pools, &args.branches);
    if let Err(e) = checked {
        let ghost talk = RunTalk { checks, trunk: nothing, adds: none };
        assert(git.history() =~= old(git).history() + talk.git());
        assert(gh.history() =~= old(gh).history() + talk.hub());
        assert(runs(talk, stacks@, before, name, base, names, pools@, Err(e)));
        return Err(e);
    }
    let wanted = match &args.pool {
        Some(n) => Some(n.as_str()),
        None => None,
    };
    assert(text::opt_str_view(wanted) == name);
    let ghost mut asked = nothing;
    let index = match pools.pool_position(wanted) {
        Some(i) => {
            assert(git.history() =~= old(git).history() + checks + asked);
            i
        },
        None => {
            let (trunk, Ghost(t)) = ask_trunk(git);
            proof {
                asked = t;
            }
            assert(git.history() =~= old(git).history() + checks + asked);
            match trunk {
                Err(e) => {
                    let ghost talk = RunTalk { checks, trunk: asked, adds: none };
                    assert(git.history() =~= old(git).history() + talk.git());
                    assert(gh.history() =~= old(gh).history() + talk.hub());
                    assert(runs(talk, stacks@, before, name, base, names, pools@, Err(e)));
                    return Err(e);
                },
                Ok(t) => ensure_pool(pools, &args.pool, t, None),
            }
        },
    };
    let (outcome, Ghost(adds)) = add_all(git, gh, pools, index, &args.branches, &args.base);
    let ghost talk = RunTalk { checks, trunk: asked, adds };
    assert(git.history() =~= old(git).history() + talk.git());
    assert(gh.history() =~= old(gh).history() + talk.hub());
    match outcome {
        Err(e) => {
            assert(runs(talk, stacks@, before, name, base, names, pools@, Err(e)));
            Err(e)
        },
        Ok(()) => {
            assert(runs(talk, stacks@, before, name, base, names, pools@, Ok(index)));
            Ok(index)
        },
    }
}

/// Adding untracked branches keeps every branch tracked once.
proof fn lemma_added_keeps(
    stacks: StackFileView,
    start: PoolFileView,
    index: int,
    branches: Seq<Seq<char>>,
    base: Option<Seq<char>>,
    talks: Seq<AddTalk>,
)
    requires
        tracked_once(stacks, start),
        0 <= index < start.pools.len(),
        talks.len() <= branches.len(),
        forall|i: int| 0 <= i < branches.len() ==> untracked(stacks, start, #[trigger] branches[i]),
        forall|i: int, j: int|
            0 <= i < j < branches.len() ==> #[trigger] branches[i] != #[trigger] branches[j],
    ensures
        tracked_once(stacks, added(start, index, branches, base, talks)),
        added(start, index, branches, base, talks).pools.len() == start.pools.len(),
        forall|i: int|
            talks.len() <= i < branches.len() ==> untracked(
                stacks,
                added(start, index, branches, base, talks),
                #[trigger] branches[i],
            ),
    decreases talks.len(),
{
    if talks.len() > 0 {
        let rest = talks.drop_last();
        lemma_added_keeps(stacks, start, index, branches, base, rest);
        let mid = added(start, index, branches, base, rest);
        let k = talks.len() - 1;
        if talks.last().failed() is None {
            let b = talks.last().result(branches[k], base, start.pools[index].trunk);
            assert(untracked(stacks, mid, branches[k]));
            lemma_with_branch_keeps(stacks, mid, index, b);
            let after = with_branch(mid, index, b);
            assert forall|i: int| talks.len() <= i < branches.len() implies untracked(
                stacks,
                after,
                #[trigger] branches[i],
            ) by {
                assert(untracked(stacks, mid, branches[i]));
                assert(branches[k] != branches[i]);
                assert forall|p: int| 0 <= p < after.pools.len() implies !(
                #[trigger] after.pools[p]).has(branches[i]) by {
                    assert(!mid.pools[p].has(branches[i]));
                    if after.pools[p].has(branches[i]) {
                        let m = choose|m: int|
                            0 <= m < after.pools[p].branches.len() && (
                            #[trigger] after.pools[p].branches[m]).branch == branches[i];
                        if m < mid.pools[p].branches.len() {
                            assert(mid.pools[p].branches[m] == after.pools[p].branches[m]);
                        }
                    }
                }
            }
        }
    }
}

/// Adding branches to a pool keeps every pool branch in one pool alone, once,
/// and in no stack, where no branch is named twice.
pub proof fn law_add_tracks_once(
    talk: RunTalk,
    stacks: StackFileView,
    before: PoolFileView,
    name: Option<Seq<char>>,
    base: Option<Seq<char>>,
    branches: Seq<Seq<char>>,
    after: PoolFileView,
    r: Result<usize, StackError>,
)
    requires
        runs(talk, stacks, before, name, base, branches, after, r),
        tracked_once(stacks, before),
        forall|i: int, j: int|
            0 <= i < j < branches.len() ==> #[trigger] branches[i] != #[trigger] branches[j],
    ensures
        tracked_once(stacks, after),
{
    if branches.len() > 0 && checks_fault(stacks, before, branches, talk.checks) is None {
        assert forall|i: int| 0 <= i < branches.len() implies untracked(
            stacks,
            before,
            #[trigger] branches[i],
        ) by {
            assert(check_fault(stacks, before, branches[i], talk.checks[i]) is None);
            lemma_untracked(stacks, before, branches[i]);
        }
        let known = before.position(name) is Some;
        seqs::lemma_first_where_is(before.pools, crate::domain::pool::called(name));
        if known || trunk_answer(talk.trunk) is Ok {
            let trunk = trunk_answer(talk.trunk)->Ok_0;
            let start = if known {
                before
            } else {
                with_pool(before, name, trunk, None)
            };
            lemma_with_pool_keeps(stacks, before, name, trunk, None);
            assert forall|i: int| 0 <= i < branches.len() implies untracked(
                stacks,
                start,
                #[trigger] branches[i],
            ) by {
                assert(untracked(stacks, before, branches[i]));
            }
            lemma_added_keeps(
                stacks,
                start,
                pool_slot(before, name),
                branches,
                base,
                talk.adds,
            );
        }
    }
}

/// A branch is refused exactly where it is not local or a stack or a pool holds
/// it already.
pub proof fn law_refused_for_cause(
    stacks: StackFileView,
    pools: PoolFileView,
    branch: Seq<char>,
    local: bool,
)
    ensures
        refusal(stacks, pools, branch, local) is None <==> local && !stacked(stacks, branch)
            && !in_a_pool(pools, branch),
{
    law_lookups_tell_holders(stacks, pools, branch);
}

/// Whether a branch is what comes of adding `name`: its head is where git says it
/// is; its base is the one asked for, or else that of the pull request that
/// GitHub found for it, or else the trunk; and the commit of the base is the one
/// that git gave, or the trunk's head where git gave none.
pub open spec fn put_in(
    name: Seq<char>,
    base: Option<Seq<char>>,
    trunk: TrunkView,
    talk: AddTalk,
    b: PoolBranchView,
) -> bool {
    &&& b.branch == name
    &&& b.pull_request is None
    &&& talk.git.len() == 2
    &&& talk.git[0] matches GitEvent::RevParse { rev, reply: Ok(head) } && rev == name && b.head
        == Some(head@)
    &&& talk.git[1] matches GitEvent::RevParse { rev, reply } && rev == b.base_branch && b.base == (
    match reply {
        Ok(sha) => sha@,
        Err(_) => trunk.head,
    })
    &&& match base {
        Some(wanted) => talk.hub.len() == 0 && b.base_branch == wanted,
        None => {
            &&& talk.hub.len() == 1
            &&& talk.hub[0] matches HubEvent::FindByHead { branch, reply } && branch == name
                && b.base_branch == (match reply {
                Ok(Some(pr)) => pr.base_ref@,
                _ => trunk.branch,
            })
        },
    }
}

#[verifier::rlimit(40)]
proof fn lemma_added_so_far(
    start: PoolFileView,
    index: int,
    branches: Seq<Seq<char>>,
    base: Option<Seq<char>>,
    talks: Seq<AddTalk>,
)
    requires
        0 <= index < start.pools.len(),
        adds_follow(start.pools[index].trunk, branches, base, talks),
    ensures
        ({
            let was = start.pools[index];
            let after = added(start, index, branches, base, talks);
            let is = after.pools[index];
            let failed = talks.len() > 0 && talks.last().failed() is Some;
            &&& after.pools.len() == start.pools.len()
            &&& after == (PoolFileView { pools: start.pools.update(index, is), ..start })
            &&& is.name == was.name && is.trunk == was.trunk && is.last_refreshed_at
                == was.last_refreshed_at
            &&& is.branches.len() == was.branches.len() + talks.len() - (if failed {
                1int
            } else {
                0
            })
            &&& forall|k: int|
                0 <= k < was.branches.len() ==> #[trigger] is.branches[k] == was.branches[k]
            &&& forall|k: int|
                0 <= k < is.branches.len() - was.branches.len() ==> put_in(
                    branches[k],
                    base,
                    was.trunk,
                    #[trigger] talks[k],
                    is.branches[was.branches.len() + k],
                )
        }),
    decreases talks.len(),
{
    if talks.len() > 0 {
        let rest = talks.drop_last();
        assert forall|i: int| 0 <= i < rest.len() implies (#[trigger] rest[i]).complete(
            branches[i],
            base,
            start.pools[index].trunk,
        ) && rest[i].failed() is None by {
            assert(rest[i] == talks[i]);
        }
        lemma_added_so_far(start, index, branches, base, rest);
        let was = start.pools[index];
        let mid = added(start, index, branches, base, rest).pools[index];
        let is = added(start, index, branches, base, talks).pools[index];
        let last = talks.len() - 1;
        assert(talks[last].complete(branches[last], base, was.trunk));
        assert forall|k: int| 0 <= k < mid.branches.len() implies #[trigger] is.branches[k]
            == mid.branches[k] by {}
        assert forall|k: int| 0 <= k < is.branches.len() - was.branches.len() implies put_in(
            branches[k],
            base,
            was.trunk,
            #[trigger] talks[k],
            is.branches[was.branches.len() + k],
        ) by {
            if k < rest.len() {
                assert(rest[k] == talks[k]);
            }
        }
    }
}

/// What adding branches that went through comes to: each was checked to be local
/// and untracked, and is put in, in the order asked for, behind those that were
/// there. The pool has the name asked for; where it is made its trunk is the one
/// that git gives. No other pool changes.
#[verifier::rlimit(40)]
pub proof fn law_add_puts_in_what_is_asked(
    talk: RunTalk,
    stacks: StackFileView,
    before: PoolFileView,
    name: Option<Seq<char>>,
    base: Option<Seq<char>>,
    branches: Seq<Seq<char>>,
    after: PoolFileView,
    at: usize,
)
    requires
        runs(talk, stacks, before, name, base, branches, after, Ok(at)),
    ensures
        ({
            let is = after.pools[at as int];
            let made = at >= before.pools.len();
            let had: int = if made {
                0
            } else {
                before.pools[at as int].branches.len() as int
            };
            &&& at < after.pools.len()
            &&& is.name == name
            &&& branches.len() > 0
            &&& is.branches.len() == had + branches.len()
            &&& forall|k: int|
                0 <= k < had ==> #[trigger] is.branches[k] == before.pools[at as int].branches[k]
            &&& forall|k: int|
                0 <= k < branches.len() ==> {
                    &&& put_in(
                        #[trigger] branches[k],
                        base,
                        is.trunk,
                        talk.adds[k],
                        is.branches[had + k],
                    )
                    &&& !stacked(stacks, branches[k]) && !in_a_pool(before, branches[k])
                    &&& talk.git()[k] matches GitEvent::BranchExists { name: n, reply: Ok(local) }
                        && n == branches[k] && local
                }
            &&& if made {
                &&& at == before.pools.len()
                &&& forall|p: int|
                    0 <= p < before.pools.len() ==> (#[trigger] before.pools[p]).name != name
                &&& is.last_refreshed_at is None
                &&& talk.git()[branches.len() as int] matches GitEvent::TrunkBranch { reply: Ok(b) }
                    && b@ == is.trunk.branch
                &&& talk.git()[(branches.len() + 1) as int] matches GitEvent::RevParse { rev, reply: Ok(h) }
                    && rev == is.trunk.branch && h@ == is.trunk.head
            } else {
                is.trunk == before.pools[at as int].trunk && is.last_refreshed_at
                    == before.pools[at as int].last_refreshed_at
            }
            &&& forall|p: int|
                0 <= p < before.pools.len() && p != at ==> #[trigger] after.pools[p]
                    == before.pools[p]
        }),
{
    let index = pool_slot(before, name);
    let called = crate::domain::pool::called(name);
    let known = before.position(name) is Some;
    seqs::lemma_first_where_is(before.pools, called);
    let start = if known {
        before
    } else {
        with_pool(before, name, trunk_answer(talk.trunk)->Ok_0, None)
    };
    lemma_added_so_far(start, index, branches, base, talk.adds);
    let had = start.pools[index].branches.len() as int;
    let is = after.pools[at as int];
    if !known {
        assert forall|p: int| 0 <= p < before.pools.len() implies (
        #[trigger] before.pools[p]).name != name by {
            assert(!called(before.pools[p]));
        }
        assert(talk.git()[branches.len() as int] == talk.trunk[0]);
        assert(talk.git()[(branches.len() + 1) as int] == talk.trunk[1]);
    }
    assert forall|k: int| 0 <= k < branches.len() implies {
        &&& put_in(#[trigger] branches[k], base, is.trunk, talk.adds[k], is.branches[had + k])
        &&& !stacked(stacks, branches[k]) && !in_a_pool(before, branches[k])
        &&& talk.git()[k] matches GitEvent::BranchExists { name: n, reply: Ok(local) } && n
            == branches[k] && local
    } by {
        assert(talk.git()[k] == talk.checks[k]);
        assert(check_fault(stacks, before, branches[k], talk.checks[k]) is None);
        law_lookups_tell_holders(stacks, before, branches[k]);
        assert(put_in(branches[k], base, is.trunk, talk.adds[k], is.branches[had + k]));
    }
}

/// Where a check fails the pools are as they were.
pub proof fn law_refused_changes_nothing(
    talk: RunTalk,
    stacks: StackFileView,
    before: PoolFileView,
    name: Option<Seq<char>>,
    base: Option<Seq<char>>,
    branches: Seq<Seq<char>>,
    after: PoolFileView,
    r: Result<usize, StackError>,
    k: int,
)
    requires
        runs(talk, stacks, before, name, base, branches, after, r),
        0 <= k < branches.len(),
        stacked(stacks, branches[k]) || in_a_pool(before, branches[k]),
    ensures
        r is Err,
        after == before,
{
    law_lookups_tell_holders(stacks, before, branches[k]);
    if checks_fault(stacks, before, branches, talk.checks) is None {
        assert(check_fault(stacks, before, branches[k], talk.checks[k]) is Some);
    }
}

} // verus!
