//! `stack checkout`: go to a tracked branch, or take a pull request over as a
//! stack.

use vstd::prelude::*;

use crate::domain::error::{Fault, StackError};
use crate::domain::pool::{PoolFile, PoolFileView};
use crate::domain::stack::{
    branch_views, stack_views, Branch, BranchView, PullRequest, PullRequestView, Stack, StackFile,
    StackFileView, StackView, Trunk, TrunkView,
};
use crate::git::output::{remote_ref, remote_ref_of};
use crate::git::{GitEvent, GitOps};
use crate::github::{info_views, GitHub, HubEvent, PrInfoView, PrState, PullRequestInfo};
use crate::ops::add::{lemma_unheld, stacks_disjoint, unheld};
use crate::ops::init::start_of;
use crate::ops::pool::rebase::found;
use crate::ops::pool::{
    check_unpooled, in_a_pool, law_lookups_tell_holders, law_new_stack_stays_apart, pooled,
    pooled_fault, stacked, tracked_once,
};
use crate::seqs;
use crate::text;

verus! {

/// The pull request that the user asks for, where a number is given.
pub fn wanted_pr(target: &str) -> (r: Option<u64>)
    ensures
        r == text::number_of(target@),
{
    text::parse_number(target)
}

/// Check that exactly one stack holds a branch.
pub fn check_tracked(file: &StackFile, branch: &str) -> (r: Result<(), StackError>)
    ensures
        ({
            let n = file@.containing(branch@).len();
            if n == 0 {
                r matches Err(e) && e@ == Fault::Other(
                    "branch `"@ + branch@ + "` is not part of any locally-tracked stack"@,
                )
            } else if n == 1 {
                r is Ok
            } else {
                r matches Err(e) && e@ == Fault::Disambiguation(branch@)
            }
        }),
{
    let holders = file.stacks_containing(branch);
    assert(crate::domain::stack::stack_ref_views(holders@).len() == holders@.len());
    if holders.len() == 0 {
        Err(
            StackError::Other(
                text::cat3("branch `", branch, "` is not part of any locally-tracked stack"),
            ),
        )
    } else if holders.len() == 1 {
        Ok(())
    } else {
        Err(StackError::Disambiguation(branch.to_string()))
    }
}

/// Whether the trunk and the pull request were asked for, and `r` is what came
/// of it.
pub open spec fn chains(
    number: u64,
    asked: GitEvent,
    seen: Seq<HubEvent>,
    r: Result<(String, Vec<PullRequestInfo>), StackError>,
) -> bool {
    &&& asked matches GitEvent::TrunkBranch { reply }
    &&& match reply {
        Err(e) => seen.len() == 0 && (r matches Err(f) && f == e),
        Ok(trunk) => {
            &&& seen.len() == 1
            &&& seen[0] matches HubEvent::View { number: n, reply: found }
            &&& n == number
            &&& match found {
                Err(e) => r matches Err(f) && f == e,
                Ok(info) => r matches Ok(c) && c.0 == trunk && c.1@ == seq![info],
            }
        },
    }
}

/// The trunk, and the pull requests that make up the stack: the one asked for.
pub fn pr_chain<G: GitOps, H: GitHub>(git: &mut G, gh: &mut H, number: u64) -> (r: Result<
    (String, Vec<PullRequestInfo>),
    StackError,
>)
    ensures
        exists|asked: GitEvent, seen: Seq<HubEvent>|
            #[trigger] chains(number, asked, seen, r) && final(git).history() == old(
                git,
            ).history().push(asked) && final(gh).history() == old(gh).history() + seen,
{
    let reply = git.trunk_branch();
    let ghost asked = GitEvent::TrunkBranch { reply };
    let trunk = match reply {
        Err(e) => {
            let ghost none = Seq::<HubEvent>::empty();
            assert(gh.history() =~= old(gh).history() + none);
            assert(chains(number, asked, none, Err(e)));
            return Err(e);
        },
        Ok(trunk) => trunk,
    };
    let answer = gh.view_pr(number);
    let ghost seen = seq![HubEvent::View { number, reply: answer }];
    assert(gh.history() =~= old(gh).history() + seen);
    match answer {
        Err(e) => {
            assert(chains(number, asked, seen, Err(e)));
            Err(e)
        },
        Ok(info) => {
            let mut chain: Vec<PullRequestInfo> = Vec::new();
            let ghost copy = info;
            chain.push(info);
            assert(chain@ =~= seq![copy]);
            let r = (trunk, chain);
            assert(chains(number, asked, seen, Ok(r)));
            Ok(r)
        },
    }
}

/// Whether git was asked where the remote has the branch and then whether it
/// is there locally, and `r` is what came of it.
pub open spec fn starts(
    branch: Seq<char>,
    events: Seq<GitEvent>,
    r: Result<Option<String>, StackError>,
) -> bool {
    &&& events.len() > 0
    &&& events[0] matches GitEvent::RevParse { rev, reply }
    &&& rev == remote_ref_of("origin"@, branch)
    &&& match reply {
        Err(_) => events.len() == 1 && (r matches Err(e) && e@ == Fault::Other(
            "branch `"@ + branch + "` not found on origin after fetch"@,
        )),
        Ok(sha) => {
            &&& events.len() == 2
            &&& events[1] matches GitEvent::BranchExists { name, reply: known }
            &&& name == branch
            &&& match known {
                Err(e) => r matches Err(f) && f == e,
                Ok(true) => r == Ok::<Option<String>, StackError>(None),
                Ok(false) => r == Ok::<Option<String>, StackError>(Some(sha)),
            }
        },
    }
}

/// Where a local branch is to be made: nowhere where there is one already. The
/// remote must have it.
pub fn local_start<G: GitOps>(git: &mut G, branch: &str) -> (r: Result<
    Option<String>,
    StackError,
>)
    ensures
        exists|events: Seq<GitEvent>|
            #[trigger] starts(branch@, events, r) && final(git).history() == old(git).history()
                + events,
{
    let ghost before = git.history();
    let rev = remote_ref("origin", branch);
    let reply = git.rev_parse(rev.as_str());
    let ghost first = GitEvent::RevParse { rev: rev@, reply };
    let sha = match reply {
        Err(_) => {
            let e = StackError::Other(
                text::cat3("branch `", branch, "` not found on origin after fetch"),
            );
            assert(git.history() =~= before + seq![first]);
            assert(starts(branch@, seq![first], Err(e)));
            return Err(e);
        },
        Ok(sha) => sha,
    };
    let known = git.branch_exists(branch);
    let ghost events = seq![first, GitEvent::BranchExists { name: branch@, reply: known }];
    assert(git.history() =~= before + events);
    match known {
        Err(e) => {
            assert(starts(branch@, events, Err(e)));
            Err(e)
        },
        Ok(yes) => {
            if yes {
                assert(starts(branch@, events, Ok(None)));
                Ok(None)
            } else {
                assert(starts(branch@, events, Ok(Some(sha))));
                Ok(Some(sha))
            }
        },
    }
}

/// Whether git was asked for the commit of each name, up to the first it could
/// not tell, and `r` is what came of it.
pub open spec fn resolves(
    names: Seq<Seq<char>>,
    events: Seq<GitEvent>,
    r: Result<Vec<String>, StackError>,
) -> bool {
    &&& events.len() <= names.len()
    &&& forall|i: int|
        0 <= i < events.len() ==> (#[trigger] events[i] matches GitEvent::RevParse { rev, .. }
            && rev == names[i])
    &&& forall|i: int| 0 <= i < events.len() - 1 ==> found(#[trigger] events[i]) is Some
    &&& match r {
        Ok(list) => {
            &&& events.len() == names.len()
            &&& list@.len() == names.len()
            &&& forall|i: int|
                0 <= i < events.len() ==> found(#[trigger] events[i]) == Some(list@[i]@)
        },
        Err(e) => events.len() > 0 && (
        events.last() matches GitEvent::RevParse { reply: Err(f), .. } && f == e),
    }
}

/// The commits that names stand for.
pub fn resolve_all<G: GitOps>(git: &mut G, names: &Vec<String>) -> (r: Result<
    Vec<String>,
    StackError,
>)
    ensures
        exists|events: Seq<GitEvent>|
            #[trigger] resolves(text::views(names@), events, r) && final(git).history() == old(
                git,
            ).history() + events,
{
    let ghost nv = text::views(names@);
    let ghost before = git.history();
    let ghost mut events: Seq<GitEvent> = Seq::empty();
    let mut out: Vec<String> = Vec::new();
    let mut i: usize = 0;
    assert(git.history() =~= before + events);
    while i < names.len()
        invariant
            i <= names@.len(),
            nv == text::views(names@),
            before == old(git).history(),
            events.len() == i,
            out@.len() == i,
            git.history() == before + events,
            forall|j: int|
                0 <= j < i ==> (#[trigger] events[j] matches GitEvent::RevParse { rev, .. } && rev
                    == nv[j]),
            forall|j: int| 0 <= j < i ==> found(#[trigger] events[j]) == Some(out@[j]@),
        decreases names.len() - i,
    {
        assert(nv[i as int] == names@[i as int]@);
        let reply = git.rev_parse(names[i].as_str());
        let ghost more = events.push(GitEvent::RevParse { rev: nv[i as int], reply });
        assert(git.history() =~= before + more);
        match reply {
            Err(e) => {
                assert forall|j: int| 0 <= j < more.len() - 1 implies found(
                    #[trigger] more[j],
                ) is Some by {
                    assert(more[j] == events[j]);
                }
                assert forall|j: int| 0 <= j < more.len() implies (
                #[trigger] more[j] matches GitEvent::RevParse { rev, .. } && rev == nv[j]) by {
                    if j < i {
                        assert(more[j] == events[j]);
                    }
                }
                assert(resolves(nv, more, Err(e)));
                return Err(e);
            },
            Ok(sha) => {
                out.push(sha);
            },
        }
        proof {
            events = more;
        }
        i = i + 1;
    }
    assert(resolves(nv, events, Ok(out)));
    Ok(out)
}

/// What a stack keeps of a pull request.
pub open spec fn kept(info: PrInfoView) -> PullRequestView {
    PullRequestView {
        number: info.number,
        id: info.id,
        url: info.url,
        merged: info.state == PrState::Merged,
    }
}

/// The stack that a chain of pull requests makes, given the heads of their
/// branches: each branch sits on the one before it, the first on the trunk.
pub open spec fn chain_stack(
    trunk: TrunkView,
    chain: Seq<PrInfoView>,
    heads: Seq<Seq<char>>,
    now: Seq<char>,
) -> StackView {
    StackView {
        prefix: None,
        trunk,
        branches: Seq::new(
            chain.len(),
            |i: int|
                BranchView {
                    branch: chain[i].head_ref,
                    head: Some(heads[i]),
                    base: start_of(trunk.head, heads, i),
                    pull_request: Some(kept(chain[i])),
                },
        ),
        last_refreshed_at: Some(now),
    }
}

/// The pull requests whose branch a stack holds.
pub open spec fn held(file: StackFileView) -> spec_fn(PrInfoView) -> bool {
    |p: PrInfoView| file.containing(p.head_ref).len() > 0
}

/// Why a chain of pull requests cannot become a stack: a stack holds one of the
/// branches already, or a pool does. The first such branch is named.
pub open spec fn chain_fault(
    file: StackFileView,
    pools: PoolFileView,
    chain: Seq<PrInfoView>,
) -> Option<Fault> {
    match seqs::first_where(chain, held(file)) {
        Some(k) => Some(
            Fault::InvalidArgs(
                "branch `"@ + chain[k].head_ref
                    + "` is already in a local stack; run `stack unstack` first"@,
            ),
        ),
        None => {
            let names = heads_of(chain);
            match seqs::first_where(names, pooled(pools)) {
                Some(k) => Some(pooled_fault(names[k])),
                None => None,
            }
        },
    }
}

/// The branches of a chain of pull requests.
pub open spec fn heads_of(chain: Seq<PrInfoView>) -> Seq<Seq<char>> {
    chain.map_values(|p: PrInfoView| p.head_ref)
}

/// Record the stack that a chain of pull requests makes, unless a stack or a
/// pool holds one of the branches already.
pub fn record_chain(
    file: &mut StackFile,
    pools: &PoolFile,
    trunk: Trunk,
    chain: &Vec<PullRequestInfo>,
    heads: &Vec<String>,
    now: &str,
) -> (r: Result<(), StackError>)
    requires
        heads@.len() == chain@.len(),
    ensures
        match chain_fault(old(file)@, pools@, info_views(chain@)) {
            Some(f) => final(file)@ == old(file)@ && (r matches Err(e) && e@ == f),
            None => r is Ok && final(file)@ == (StackFileView {
                stacks: old(file)@.stacks.push(
                    chain_stack(trunk@, info_views(chain@), text::views(heads@), now@),
                ),
                ..old(file)@
            }),
        },
{
    let ghost cv = info_views(chain@);
    let ghost hv = text::views(heads@);
    let ghost p = held(file@);
    let ghost target = chain_stack(trunk@, cv, hv, now@).branches;
    let mut branches: Vec<Branch> = Vec::new();
    let mut names: Vec<String> = Vec::new();
    let mut i: usize = 0;
    assert(branch_views(branches@) =~= target.take(0));
    assert(text::views(names@) =~= heads_of(cv).take(0));
    while i < chain.len()
        invariant
            i <= chain@.len(),
            text::views(names@) == heads_of(cv).take(i as int),
            heads@.len() == chain@.len(),
            cv == info_views(chain@),
            hv == text::views(heads@),
            p == held(file@),
            file@ == old(file)@,
            target == chain_stack(trunk@, cv, hv, now@).branches,
            branch_views(branches@) == target.take(i as int),
            forall|j: int| 0 <= j < i ==> !p(#[trigger] cv[j]),
        decreases chain.len() - i,
    {
        let info = &chain[i];
        assert(cv[i as int] == info@ && hv[i as int] == heads@[i as int]@);
        let holders = file.stacks_containing(info.head_ref.as_str());
        assert(crate::domain::stack::stack_ref_views(holders@).len() == holders@.len());
        if holders.len() > 0 {
            proof {
                seqs::lemma_first_where(cv, p, i as int);
            }
            return Err(
                StackError::InvalidArgs(
                    text::cat3(
                        "branch `",
                        info.head_ref.as_str(),
                        "` is already in a local stack; run `stack unstack` first",
                    ),
                ),
            );
        }
        let ghost before = branch_views(branches@);
        let base = if i == 0 {
            trunk.head.clone()
        } else {
            assert(hv[i - 1] == heads@[i - 1]@);
            heads[i - 1].clone()
        };
        let b = Branch {
            branch: info.head_ref.clone(),
            head: Some(heads[i].clone()),
            base,
            pull_request: Some(
                PullRequest {
                    number: info.number,
                    id: info.id.clone(),
                    url: info.url.clone(),
                    merged: info.state == PrState::Merged,
                },
            ),
        };
        let ghost model = b@;
        let ghost listed = text::views(names@);
        branches.push(b);
        names.push(info.head_ref.clone());
        assert(branch_views(branches@) =~= before.push(model));
        assert(model =~= target[i as int]);
        assert(branch_views(branches@) =~= target.take(i + 1));
        assert(text::views(names@) =~= listed.push(info@.head_ref));
        assert(text::views(names@) =~= heads_of(cv).take(i + 1));
        i = i + 1;
    }
    proof {
        seqs::lemma_first_where_none(cv, p);
        assert(branch_views(branches@) =~= target);
        assert(text::views(names@) =~= heads_of(cv));
    }
    if let Err(e) = check_unpooled(pools, &names) {
        return Err(e);
    }
    let ghost before = stack_views(file.stacks@);
    let stack = Stack { prefix: None, trunk, branches, last_refreshed_at: Some(now.to_string()) };
    let ghost model = stack@;
    file.stacks.push(stack);
    assert(stack_views(file.stacks@) =~= before.push(model));
    Ok(())
}

/// A stack that pull requests make keeps every branch in one stack, once, where
/// no two of them have the same branch and none was held before.
pub proof fn law_checkout_tracks_once(
    file: StackFileView,
    trunk: TrunkView,
    chain: Seq<PrInfoView>,
    heads: Seq<Seq<char>>,
    now: Seq<char>,
)
    requires
        stacks_disjoint(file.stacks),
        seqs::first_where(chain, held(file)) is None,
        forall|i: int, j: int|
            0 <= i < j < chain.len() ==> (#[trigger] chain[i]).head_ref != (
            #[trigger] chain[j]).head_ref,
    ensures
        stacks_disjoint(file.stacks.push(chain_stack(trunk, chain, heads, now))),
{
    let before = file.stacks;
    let s = chain_stack(trunk, chain, heads, now);
    let after = before.push(s);
    seqs::lemma_first_where_is(chain, held(file));
    assert forall|k: int| 0 <= k < chain.len() implies unheld(
        before,
        (#[trigger] chain[k]).head_ref,
    ) by {
        assert(!held(file)(chain[k]));
        lemma_unheld(file, chain[k].head_ref);
    }
    assert forall|p: int, i: int, q: int, j: int|
        #![trigger after[p].branches[i], after[q].branches[j]]
        0 <= p < after.len() && 0 <= i < after[p].branches.len() && 0 <= q < after.len() && 0 <= j
            < after[q].branches.len() && after[p].branches[i].branch
            == after[q].branches[j].branch implies p == q && i == j by {
        if p < before.len() {
            assert(after[p].branches[i] == before[p].branches[i]);
        }
        if q < before.len() {
            assert(after[q].branches[j] == before[q].branches[j]);
        }
        if p == before.len() && q < before.len() {
            assert(unheld(before, chain[i].head_ref));
            assert(!before[q].has(chain[i].head_ref));
        }
        if q == before.len() && p < before.len() {
            assert(unheld(before, chain[j].head_ref));
            assert(!before[p].has(chain[j].head_ref));
        }
        if p == before.len() && q == before.len() {
            assert(chain[i].head_ref == chain[j].head_ref);
        }
    }
}

/// A stack that `record_chain` records keeps pools and stacks apart.
pub proof fn law_checkout_stays_apart(
    file: StackFileView,
    pools: PoolFileView,
    trunk: TrunkView,
    chain: Seq<PrInfoView>,
    heads: Seq<Seq<char>>,
    now: Seq<char>,
)
    requires
        chain_fault(file, pools, chain) is None,
        tracked_once(file, pools),
    ensures
        tracked_once(
            (StackFileView {
                stacks: file.stacks.push(chain_stack(trunk, chain, heads, now)),
                ..file
            }),
            pools,
        ),
{
    let s = chain_stack(trunk, chain, heads, now);
    assert(s.branches.map_values(|b: BranchView| b.branch) =~= heads_of(chain));
    law_new_stack_stays_apart(file, pools, s);
}

/// The pull requests of this number.
pub open spec fn numbered(number: u64) -> spec_fn(PrInfoView) -> bool {
    |p: PrInfoView| p.number == number
}

/// The branch of the pull request that was asked for.
pub fn requested_branch(chain: &Vec<PullRequestInfo>, number: u64) -> (r: Option<String>)
    ensures
        text::opt_view(r) == (match seqs::first_where(info_views(chain@), numbered(number)) {
            Some(k) => Some(info_views(chain@)[k].head_ref),
            None => None,
        }),
{
    let ghost cv = info_views(chain@);
    let ghost p = numbered(number);
    let mut i: usize = 0;
    while i < chain.len()
        invariant
            i <= chain@.len(),
            cv == info_views(chain@),
            p == numbered(number),
            forall|j: int| 0 <= j < i ==> !p(#[trigger] cv[j]),
        decreases chain.len() - i,
    {
        assert(cv[i as int] == chain@[i as int]@);
        if chain[i].number == number {
            proof {
                seqs::lemma_first_where(cv, p, i as int);
            }
            return Some(chain[i].head_ref.clone());
        }
        i = i + 1;
    }
    proof {
        seqs::lemma_first_where_none(cv, p);
    }
    None
}

/// The stack that pull requests make: a branch for each, in order, with its head
/// at the commit given and its base at the head of the one before, the first at
/// the trunk's. Each has its pull request recorded as GitHub gives it, and the
/// time is recorded.
pub proof fn law_chain_is_recorded(
    trunk: TrunkView,
    chain: Seq<PrInfoView>,
    heads: Seq<Seq<char>>,
    now: Seq<char>,
)
    requires
        heads.len() == chain.len(),
    ensures
        ({
            let s = chain_stack(trunk, chain, heads, now);
            &&& s.prefix is None && s.trunk == trunk && s.last_refreshed_at == Some(now)
            &&& s.branches.len() == chain.len()
            &&& forall|i: int|
                0 <= i < chain.len() ==> {
                    let b = #[trigger] s.branches[i];
                    &&& b.branch == chain[i].head_ref
                    &&& b.head == Some(heads[i])
                    &&& i == 0 ==> b.base == trunk.head
                    &&& i > 0 ==> b.base == heads[i - 1]
                    &&& b.pull_request matches Some(p) && p.number == chain[i].number && p.id
                        == chain[i].id && p.url == chain[i].url && p.merged == (chain[i].state
                        == PrState::Merged)
                }
        }),
{
}

/// Pull requests are refused exactly where a stack or a pool holds the branch of
/// one of them.
pub proof fn law_chain_refused_for_cause(
    file: StackFileView,
    pools: PoolFileView,
    chain: Seq<PrInfoView>,
)
    ensures
        chain_fault(file, pools, chain) is None <==> forall|i: int|
            0 <= i < chain.len() ==> !stacked(file, (#[trigger] chain[i]).head_ref) && !in_a_pool(
                pools,
                chain[i].head_ref,
            ),
{
    let names = heads_of(chain);
    seqs::lemma_first_where_is(chain, held(file));
    seqs::lemma_first_where_is(names, pooled(pools));
    assert forall|i: int| 0 <= i < chain.len() implies held(file)(#[trigger] chain[i]) == stacked(
        file,
        chain[i].head_ref,
    ) && pooled(pools)(names[i]) == in_a_pool(pools, chain[i].head_ref) by {
        law_lookups_tell_holders(file, pools, chain[i].head_ref);
        assert(names[i] == chain[i].head_ref);
    }
    if chain_fault(file, pools, chain) is Some {
        match seqs::first_where(chain, held(file)) {
            Some(k) => {
                assert(held(file)(chain[k]));
            },
            None => {
                let k = seqs::first_where(names, pooled(pools))->0;
                assert(pooled(pools)(names[k]));
                assert(in_a_pool(pools, chain[k].head_ref));
            },
        }
    } else {
        assert forall|i: int| 0 <= i < chain.len() implies !stacked(
            file,
            (#[trigger] chain[i]).head_ref,
        ) && !in_a_pool(pools, chain[i].head_ref) by {
            assert(!held(file)(chain[i]));
            assert(!pooled(pools)(names[i]));
        }
    }
}

/// The chain of a pull request is the one that GitHub gives for its number, on
/// the default branch that git gives.
pub proof fn law_chain_is_the_one_asked_for(
    number: u64,
    asked: GitEvent,
    seen: Seq<HubEvent>,
    r: Result<(String, Vec<PullRequestInfo>), StackError>,
)
    requires
        chains(number, asked, seen, r),
    ensures
        r matches Ok((trunk, chain)) ==> {
            &&& asked matches GitEvent::TrunkBranch { reply: Ok(b) } && b@ == trunk@
            &&& seen.len() == 1
            &&& seen[0] matches HubEvent::View { number: n, reply: Ok(info) } && n == number
                && chain@.len() == 1 && chain@[0] == info
        },
        r is Err ==> (asked matches GitEvent::TrunkBranch { reply: Err(_) }) || (
        seen.len() == 1 && (seen[0] matches HubEvent::View { reply: Err(_), .. })),
{
}

/// A local branch is made where the remote has it, and only where there is none
/// yet. A branch that the remote does not have is an error.
pub proof fn law_made_only_where_missing(
    branch: Seq<char>,
    events: Seq<GitEvent>,
    r: Result<Option<String>, StackError>,
)
    requires
        starts(branch, events, r),
    ensures
        events.len() > 0,
        events[0] matches GitEvent::RevParse { rev, reply } && rev == "refs/remotes/"@ + "origin"@
            + "/"@ + branch && (reply is Err ==> r is Err),
        r matches Ok(start) ==> {
            &&& events.len() == 2
            &&& events[1] matches GitEvent::BranchExists { name, reply: Ok(known) } && name
                == branch && (known <==> start is None)
            &&& start matches Some(sha) ==> (events[0] matches GitEvent::RevParse { reply: Ok(at), .. }
                && at@ == sha@)
        },
{
}

/// The commits found for a list of names are those that git gives, name by name.
pub proof fn law_resolved_is_gits(
    names: Seq<Seq<char>>,
    events: Seq<GitEvent>,
    list: Vec<String>,
    i: int,
)
    requires
        resolves(names, events, Ok(list)),
        0 <= i < names.len(),
    ensures
        list@.len() == names.len(),
        events.len() == names.len(),
        events[i] matches GitEvent::RevParse { rev, reply: Ok(sha) } && rev == names[i] && sha@
            == list@[i]@,
{
    assert(found(events[i]) == Some(list@[i]@));
}

} // verus!
