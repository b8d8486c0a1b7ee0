//! `pool adopt`: bulk-add every open pull request of the user to a pool. The
//! head branch must exist locally and be in no stack and no pool yet. The pool
//! is made where it is missing.

use vstd::prelude::*;

use crate::domain::error::{Fault, StackError};
use crate::domain::pool::{
    PoolBranch, PoolBranchView, PoolFile, PoolFileView, PoolPullRequest, PoolPullRequestView,
    PoolView,
};
use crate::domain::stack::{StackFile, StackFileView, Trunk, TrunkView};
use crate::git::{GitEvent, GitOps};
use crate::github::{info_views, GitHub, HubEvent, PrInfoView, PrState, PullRequestInfo};
use crate::ops::pool::{
    append_branch, ensure_pool, in_a_pool, law_lookups_tell_holders, lemma_untracked,
    lemma_with_branch_keeps, lemma_with_pool_keeps, lemma_with_stamp_keeps, pool_slot, stacked,
    stamp_pool, tracked_once, with_branch, with_pool, with_stamp,
};
use crate::seqs;
use crate::style;
use crate::text;

verus! {

#[derive(Debug)]
pub struct AdoptArgs {
    pub pool: Option<String>,
}

/// Why a pull request was passed over.
#[derive(Debug, Clone, Copy, PartialEq, Eq, Structural)]
pub enum SkipReason {
    NotLocal,
    InStack,
    InPool,
}

/// What was adopted, and what was passed over.
#[derive(Debug)]
pub struct AdoptOutcome {
    pub adopted: Vec<AdoptedBranch>,
    pub skipped: Vec<(String, SkipReason)>,
}

#[derive(Debug)]
pub struct AdoptedBranch {
    pub branch: String,
    pub pr_number: u64,
    pub pr_url: String,
}

#[verifier::ext_equal]
pub struct AdoptedView {
    pub branch: Seq<char>,
    pub pr_number: u64,
    pub pr_url: Seq<char>,
}

impl View for AdoptedBranch {
    type V = AdoptedView;

    open spec fn view(&self) -> AdoptedView {
        AdoptedView { branch: self.branch@, pr_number: self.pr_number, pr_url: self.pr_url@ }
    }
}

/// The models of a list of adopted branches.
pub open spec fn adopted_views(list: Seq<AdoptedBranch>) -> Seq<AdoptedView> {
    list.map_values(|a: AdoptedBranch| a@)
}

/// The models of a list of branches passed over.
pub open spec fn skipped_views(list: Seq<(String, SkipReason)>) -> Seq<(Seq<char>, SkipReason)> {
    list.map_values(|s: (String, SkipReason)| (s.0@, s.1))
}

/// Why a branch cannot be adopted; `None` where it can.
pub open spec fn obstacle(
    stacks: StackFileView,
    pools: PoolFileView,
    branch: Seq<char>,
    local: bool,
) -> Option<SkipReason> {
    if !local {
        Some(SkipReason::NotLocal)
    } else if stacks.containing(branch).len() > 0 {
        Some(SkipReason::InStack)
    } else if pools.position_containing(branch) is Some {
        Some(SkipReason::InPool)
    } else {
        None
    }
}

/// Why a branch cannot be adopted: it must exist locally and be in no stack
/// and no pool.
pub fn classify(stacks: &StackFile, pools: &PoolFile, branch: &str, local: bool) -> (r: Option<
    SkipReason,
>)
    ensures
        r == obstacle(stacks@, pools@, branch@, local),
{
    if !local {
        return Some(SkipReason::NotLocal);
    }
    let holders = stacks.stacks_containing(branch);
    assert(crate::domain::stack::stack_ref_views(holders@).len() == holders@.len());
    if holders.len() > 0 {
        return Some(SkipReason::InStack);
    }
    if pools.pool_position_containing(branch).is_some() {
        return Some(SkipReason::InPool);
    }
    None
}

/// The branch that a pull request becomes: on the base that the pull request
/// targets, with nothing unread.
pub open spec fn adopted_branch(
    pr: PrInfoView,
    head: Seq<char>,
    base: Seq<char>,
) -> PoolBranchView {
    PoolBranchView {
        branch: pr.head_ref,
        head: Some(head),
        base_branch: pr.base_ref,
        base,
        pull_request: Some(
            PoolPullRequestView {
                number: pr.number,
                id: pr.id,
                url: pr.url,
                merged: false,
                comment_count: pr.comment_count,
                seen_comment_count: pr.comment_count,
                mergeable: pr.mergeable,
            },
        ),
    }
}

/// How far the adoption has come.
#[verifier::ext_equal]
pub struct Adoption {
    pub pools: PoolFileView,
    pub adopted: Seq<AdoptedView>,
    pub skipped: Seq<(Seq<char>, SkipReason)>,
    pub failed: Option<Fault>,
}

/// Where and under which circumstances pull requests are adopted.
pub struct Setting {
    pub stacks: StackFileView,
    /// Where the target pool stands.
    pub index: int,
    pub trunk_head: Seq<char>,
}

impl Adoption {
    /// Whether git was asked what it takes to judge this pull request: whether
    /// the branch is local; and, where it can be adopted, its head and its
    /// base. One that is not open is not asked about.
    pub open spec fn asks(self, s: Setting, pr: PrInfoView, events: Seq<GitEvent>) -> bool {
        if pr.state != PrState::Open {
            events.len() == 0
        } else {
            &&& events.len() > 0
            &&& events[0] matches GitEvent::BranchExists { name, reply }
            &&& name == pr.head_ref
            &&& match reply {
                Err(_) => events.len() == 1,
                Ok(local) => if obstacle(s.stacks, self.pools, pr.head_ref, local) is Some {
                    events.len() == 1
                } else {
                    &&& events.len() > 1
                    &&& events[1] matches GitEvent::RevParse { rev, reply: head }
                    &&& rev == pr.head_ref
                    &&& match head {
                        Err(_) => events.len() == 2,
                        Ok(_) => events.len() == 3 && (
                        events[2] matches GitEvent::RevParse { rev: base, .. } && base
                            == pr.base_ref),
                    }
                },
            }
        }
    }

    /// What becomes of it. A base that git cannot resolve is taken to be at
    /// the trunk's head.
    pub open spec fn told(self, s: Setting, pr: PrInfoView, events: Seq<GitEvent>) -> Adoption {
        if pr.state != PrState::Open {
            self
        } else {
            match events[0] {
                GitEvent::BranchExists { reply: Err(e), .. } => Adoption {
                    failed: Some(e@),
                    ..self
                },
                GitEvent::BranchExists { reply: Ok(local), .. } => match obstacle(
                    s.stacks,
                    self.pools,
                    pr.head_ref,
                    local,
                ) {
                    Some(reason) => Adoption {
                        skipped: self.skipped.push((pr.head_ref, reason)),
                        ..self
                    },
                    None => match events[1] {
                        GitEvent::RevParse { reply: Err(e), .. } => Adoption {
                            failed: Some(e@),
                            ..self
                        },
                        GitEvent::RevParse { reply: Ok(head), .. } => Adoption {
                            pools: with_branch(
                                self.pools,
                                s.index,
                                adopted_branch(
                                    pr,
                                    head@,
                                    match events[2] {
                                        GitEvent::RevParse { reply: Ok(base), .. } => base@,
                                        _ => s.trunk_head,
                                    },
                                ),
                            ),
                            adopted: self.adopted.push(
                                AdoptedView {
                                    branch: pr.head_ref,
                                    pr_number: pr.number,
                                    pr_url: pr.url,
                                },
                            ),
                            ..self
                        },
                        _ => self,
                    },
                },
                _ => self,
            }
        }
    }

    /// What becomes of the first pull requests, one after the other.
    pub open spec fn after(
        self,
        s: Setting,
        prs: Seq<PrInfoView>,
        talks: Seq<Seq<GitEvent>>,
    ) -> Adoption
        decreases talks.len(),
    {
        if talks.len() == 0 {
            self
        } else {
            self.after(s, prs, talks.drop_last()).told(s, prs[talks.len() - 1], talks.last())
        }
    }

    pub open spec fn follows(
        self,
        s: Setting,
        prs: Seq<PrInfoView>,
        talks: Seq<Seq<GitEvent>>,
    ) -> bool
        decreases talks.len(),
    {
        talks.len() > 0 ==> {
            let before = self.after(s, prs, talks.drop_last());
            &&& self.follows(s, prs, talks.drop_last())
            &&& before.failed is None
            &&& before.asks(s, prs[talks.len() - 1], talks.last())
        }
    }
}

fn adopt_one<G: GitOps>(
    git: &mut G,
    stacks: &StackFile,
    pools: &mut PoolFile,
    index: usize,
    trunk_head: &str,
    pr: &PullRequestInfo,
    outcome: &mut AdoptOutcome,
) -> (r: (Result<(), StackError>, Ghost<Seq<GitEvent>>))
    requires
        index < old(pools).pools@.len(),
    ensures
        final(git).history() == old(git).history() + r.1@,
        final(pools).pools@.len() == old(pools).pools@.len(),
        ({
            let s = Setting { stacks: stacks@, index: index as int, trunk_head: trunk_head@ };
            let before = Adoption {
                pools: old(pools)@,
                adopted: adopted_views(old(outcome).adopted@),
                skipped: skipped_views(old(outcome).skipped@),
                failed: None,
            };
            &&& before.asks(s, pr@, r.1@)
            &&& before.told(s, pr@, r.1@) == (Adoption {
                pools: final(pools)@,
                adopted: adopted_views(final(outcome).adopted@),
                skipped: skipped_views(final(outcome).skipped@),
                failed: match r.0 {
                    Ok(()) => None,
                    Err(e) => Some(e@),
                },
            })
        }),
{
    let ghost mut events: Seq<GitEvent> = Seq::empty();
    let ghost adopted = adopted_views(outcome.adopted@);
    let ghost skipped = skipped_views(outcome.skipped@);
    assert(git.history() =~= old(git).history() + events);
    if pr.state != PrState::Open {
        return (Ok(()), Ghost(events));
    }
    let reply = git.branch_exists(pr.head_ref.as_str());
    proof {
        events = events.push(GitEvent::BranchExists { name: pr.head_ref@, reply });
    }
    assert(git.history() =~= old(git).history() + events);
    let local = match reply {
        Err(e) => {
            return (Err(e), Ghost(events));
        },
        Ok(local) => local,
    };
    if let Some(reason) = classify(stacks, pools, pr.head_ref.as_str(), local) {
        outcome.skipped.push((pr.head_ref.clone(), reason));
        assert(skipped_views(outcome.skipped@) =~= skipped.push((pr.head_ref@, reason)));
        return (Ok(()), Ghost(events));
    }
    let reply = git.rev_parse(pr.head_ref.as_str());
    proof {
        events = events.push(GitEvent::RevParse { rev: pr.head_ref@, reply });
    }
    assert(git.history() =~= old(git).history() + events);
    let head = match reply {
        Err(e) => {
            return (Err(e), Ghost(events));
        },
        Ok(head) => head,
    };
    let reply = git.rev_parse(pr.base_ref.as_str());
    proof {
        events = events.push(GitEvent::RevParse { rev: pr.base_ref@, reply });
    }
    assert(git.history() =~= old(git).history() + events);
    let base = match reply {
        Err(_) => trunk_head.to_string(),
        Ok(base) => base,
    };
    append_branch(
        pools,
        index,
        PoolBranch {
            branch: pr.head_ref.clone(),
            head: Some(head),
            base_branch: pr.base_ref.clone(),
            base,
            pull_request: Some(
                PoolPullRequest {
                    number: pr.number,
                    id: pr.id.clone(),
                    url: pr.url.clone(),
                    merged: false,
                    comment_count: pr.comment_count,
                    seen_comment_count: pr.comment_count,
                    mergeable: pr.mergeable,
                },
            ),
        },
    );
    let entry = AdoptedBranch {
        branch: pr.head_ref.clone(),
        pr_number: pr.number,
        pr_url: pr.url.clone(),
    };
    let ghost model = entry@;
    outcome.adopted.push(entry);
    assert(adopted_views(outcome.adopted@) =~= adopted.push(model));
    (Ok(()), Ghost(events))
}

/// What was asked in one run of `adopt`.
pub struct AdoptTalk {
    pub list: HubEvent,
    pub trunk: Seq<GitEvent>,
    pub prs: Seq<Seq<GitEvent>>,
}

impl AdoptTalk {
    pub open spec fn git(self) -> Seq<GitEvent> {
        self.trunk + seqs::joined(self.prs)
    }
}

/// Whether `talk` adopts this list of pull requests, with the trunk at
/// `trunk`.
pub open spec fn adopts_list(
    talk: AdoptTalk,
    list: Seq<PrInfoView>,
    trunk: TrunkView,
    stacks: StackFileView,
    before: PoolFileView,
    pool: Option<Seq<char>>,
    now: Seq<char>,
    after: PoolFileView,
    r: Result<AdoptOutcome, StackError>,
) -> bool {
    let s = Setting { stacks, index: pool_slot(before, pool), trunk_head: trunk.head };
    let start = Adoption {
        pools: with_pool(before, pool, trunk, Some(now)),
        adopted: Seq::empty(),
        skipped: Seq::empty(),
        failed: None,
    };
    let end = start.after(s, list, talk.prs);
    &&& talk.prs.len() <= list.len()
    &&& start.follows(s, list, talk.prs)
    &&& match end.failed {
        Some(f) => {
            &&& after == end.pools
            &&& r matches Err(e) && e@ == f
        },
        None => {
            &&& talk.prs.len() == list.len()
            &&& after == with_stamp(end.pools, s.index, now)
            &&& r matches Ok(outcome)
            &&& adopted_views(outcome.adopted@) == end.adopted
            &&& skipped_views(outcome.skipped@) == end.skipped
        },
    }
}

/// Whether `talk` is a run of `adopt` that turns one file into another and
/// returns `r`. Where there are no pull requests nothing more is asked and
/// nothing changes.
pub open spec fn adopts(
    talk: AdoptTalk,
    stacks: StackFileView,
    before: PoolFileView,
    pool: Option<Seq<char>>,
    now: Seq<char>,
    after: PoolFileView,
    r: Result<AdoptOutcome, StackError>,
) -> bool {
    &&& talk.list matches HubEvent::ListMine { reply }
    &&& match reply {
        Err(f) => {
            &&& talk.trunk.len() == 0 && talk.prs.len() == 0 && after == before
            &&& r matches Err(e) && e@ == f@
        },
        Ok(list) => if list@.len() == 0 {
            &&& talk.trunk.len() == 0 && talk.prs.len() == 0 && after == before
            &&& r matches Ok(outcome) && outcome.adopted@.len() == 0 && outcome.skipped@.len() == 0
        } else {
            &&& talk.trunk.len() > 0
            &&& talk.trunk[0] matches GitEvent::TrunkBranch { reply: trunk }
            &&& match trunk {
                Err(f) => {
                    &&& talk.trunk.len() == 1 && talk.prs.len() == 0 && after == before
                    &&& r matches Err(e) && e@ == f@
                },
                Ok(branch) => {
                    &&& talk.trunk.len() == 2
                    &&& talk.trunk[1] matches GitEvent::RevParse { rev, reply: head }
                    &&& rev == branch@
                    &&& match head {
                        Err(f) => {
                            &&& talk.prs.len() == 0 && after == before
                            &&& r matches Err(e) && e@ == f@
                        },
                        Ok(head) => adopts_list(
                            talk,
                            info_views(list@),
                            TrunkView { branch: branch@, head: head@ },
                            stacks,
                            before,
                            pool,
                            now,
                            after,
                            r,
                        ),
                    }
                },
            }
        },
    }
}

/// Adopt every open pull request of the user into a pool. Only `pools`
/// changes; `stacks` says which branches are taken. `now` is recorded as the
/// time of the refresh.
pub fn adopt<G: GitOps, H: GitHub>(
    git: &mut G,
    gh: &mut H,
    stacks: &StackFile,
    pools: &mut PoolFile,
    args: &AdoptArgs,
    now: &str,
) -> (r: Result<AdoptOutcome, StackError>)
    ensures
        exists|talk: AdoptTalk|
            #[trigger] adopts(
                talk,
                stacks@,
                old(pools)@,
                text::opt_view(args.pool),
                now@,
                final(pools)@,
                r,
            ) && final(git).history() == old(git).history() + talk.git() && final(gh).history()
                == old(gh).history().push(talk.list),
{
    let ghost before = pools@;
    let ghost name = text::opt_view(args.pool);
    let ghost none: Seq<Seq<GitEvent>> = Seq::empty();
    let ghost mut trunk_talk: Seq<GitEvent> = Seq::empty();
    let reply = gh.list_my_open_prs();
    let ghost list = HubEvent::ListMine { reply };
    let mut outcome = AdoptOutcome { adopted: Vec::new(), skipped: Vec::new() };
    let prs = match reply {
        Err(e) => {
            let ghost talk = AdoptTalk { list, trunk: trunk_talk, prs: none };
            assert(git.history() =~= old(git).history() + talk.git());
            assert(adopts(talk, stacks@, before, name, now@, pools@, Err(e)));
            return Err(e);
        },
        Ok(prs) => prs,
    };
    if prs.len() == 0 {
        let ghost talk = AdoptTalk { list, trunk: trunk_talk, prs: none };
        assert(git.history() =~= old(git).history() + talk.git());
        assert(adopts(talk, stacks@, before, name, now@, pools@, Ok(outcome)));
        return Ok(outcome);
    }
    let reply = git.trunk_branch();
    proof {
        trunk_talk = trunk_talk.push(GitEvent::TrunkBranch { reply });
    }
    let trunk_branch = match reply {
        Err(e) => {
            let ghost talk = AdoptTalk { list, trunk: trunk_talk, prs: none };
            assert(git.history() =~= old(git).history() + talk.git());
            assert(adopts(talk, stacks@, before, name, now@, pools@, Err(e)));
            return Err(e);
        },
        Ok(b) => b,
    };
    let reply = git.rev_parse(trunk_branch.as_str());
    proof {
        trunk_talk = trunk_talk.push(GitEvent::RevParse { rev: trunk_branch@, reply });
    }
    let trunk_head = match reply {
        Err(e) => {
            let ghost talk = AdoptTalk { list, trunk: trunk_talk, prs: none };
            assert(git.history() =~= old(git).history() + talk.git());
            assert(adopts(talk, stacks@, before, name, now@, pools@, Err(e)));
            return Err(e);
        },
        Ok(h) => h,
    };
    let trunk = Trunk { branch: trunk_branch, head: trunk_head.clone() };
    let ghost trunk_view = trunk@;
    let index = ensure_pool(pools, &args.pool, trunk, Some(now.to_string()));
    let ghost infos = info_views(prs@);
    let ghost s = Setting { stacks: stacks@, index: index as int, trunk_head: trunk_head@ };
    let ghost start = Adoption {
        pools: pools@,
        adopted: Seq::empty(),
        skipped: Seq::empty(),
        failed: None,
    };
    let ghost mut talks: Seq<Seq<GitEvent>> = Seq::empty();
    let mut i: usize = 0;
    assert(adopted_views(outcome.adopted@) =~= Seq::<AdoptedView>::empty());
    assert(skipped_views(outcome.skipped@) =~= Seq::<(Seq<char>, SkipReason)>::empty());
    assert(git.history() =~= old(git).history() + trunk_talk + seqs::joined(talks));
    while i < prs.len()
        invariant
            i <= prs.len(),
            index < pools.pools@.len(),
            infos == info_views(prs@),
            talks.len() == i,
            s == (Setting { stacks: stacks@, index: index as int, trunk_head: trunk_head@ }),
            start.follows(s, infos, talks),
            start.after(s, infos, talks) == (Adoption {
                pools: pools@,
                adopted: adopted_views(outcome.adopted@),
                skipped: skipped_views(outcome.skipped@),
                failed: None,
            }),
            git.history() == old(git).history() + trunk_talk + seqs::joined(talks),
            prs@.len() > 0,
            s.index == pool_slot(before, name),
            start.pools == with_pool(before, name, trunk_view, Some(now@)),
            start.adopted == Seq::<AdoptedView>::empty(),
            start.skipped == Seq::<(Seq<char>, SkipReason)>::empty(),
            start.failed is None,
            trunk_view.head == trunk_head@,
            list == (HubEvent::ListMine { reply: Ok(prs) }),
            trunk_talk.len() == 2,
            trunk_talk[0] matches GitEvent::TrunkBranch { reply: Ok(b) } && b@
                == trunk_view.branch,
            trunk_talk[1] matches GitEvent::RevParse { rev, reply: Ok(h) } && rev
                == trunk_view.branch && h == trunk_head,
            gh.history() == old(gh).history().push(list),
            before == old(pools)@,
            name == text::opt_view(args.pool),
        decreases prs.len() - i,
    {
        assert(infos[i as int] == prs@[i as int]@);
        let (step, Ghost(events)) = adopt_one(
            git,
            stacks,
            pools,
            index,
            trunk_head.as_str(),
            &prs[i],
            &mut outcome,
        );
        let ghost more = talks.push(events);
        proof {
            assert(more.drop_last() =~= talks);
            seqs::lemma_joined_push(talks, events);
            assert(git.history() =~= old(git).history() + trunk_talk + seqs::joined(more));
        }
        if let Err(e) = step {
            let ghost talk = AdoptTalk { list, trunk: trunk_talk, prs: more };
            assert(git.history() =~= old(git).history() + talk.git());
            assert(adopts(talk, stacks@, before, name, now@, pools@, Err(e)));
            return Err(e);
        }
        proof {
            talks = more;
        }
        i = i + 1;
    }
    stamp_pool(pools, index, now);
    let ghost talk = AdoptTalk { list, trunk: trunk_talk, prs: talks };
    assert(git.history() =~= old(git).history() + talk.git());
    assert(adopts(talk, stacks@, before, name, now@, pools@, Ok(outcome)));
    Ok(outcome)
}

proof fn lemma_adoption_keeps(
    start: Adoption,
    s: Setting,
    prs: Seq<PrInfoView>,
    talks: Seq<Seq<GitEvent>>,
)
    requires
        start.follows(s, prs, talks),
        tracked_once(s.stacks, start.pools),
        0 <= s.index < start.pools.pools.len(),
    ensures
        tracked_once(s.stacks, start.after(s, prs, talks).pools),
        start.after(s, prs, talks).pools.pools.len() == start.pools.pools.len(),
    decreases talks.len(),
{
    if talks.len() > 0 {
        lemma_adoption_keeps(start, s, prs, talks.drop_last());
        let before = start.after(s, prs, talks.drop_last());
        let pr = prs[talks.len() - 1];
        let events = talks.last();
        if pr.state == PrState::Open {
            if let GitEvent::BranchExists { reply: Ok(local), .. } = events[0] {
                if obstacle(s.stacks, before.pools, pr.head_ref, local) is None {
                    lemma_untracked(s.stacks, before.pools, pr.head_ref);
                    if let GitEvent::RevParse { reply: Ok(head), .. } = events[1] {
                        let base = match events[2] {
                            GitEvent::RevParse { reply: Ok(base), .. } => base@,
                            _ => s.trunk_head,
                        };
                        lemma_with_branch_keeps(
                            s.stacks,
                            before.pools,
                            s.index,
                            adopted_branch(pr, head@, base),
                        );
                    }
                }
            }
        }
    }
}

/// Adoption keeps every pool branch in one pool alone, once, and in no stack,
/// whatever GitHub lists.
pub proof fn law_adopt_tracks_once(
    talk: AdoptTalk,
    stacks: StackFileView,
    before: PoolFileView,
    pool: Option<Seq<char>>,
    now: Seq<char>,
    after: PoolFileView,
    r: Result<AdoptOutcome, StackError>,
)
    requires
        adopts(talk, stacks, before, pool, now, after, r),
        tracked_once(stacks, before),
    ensures
        tracked_once(stacks, after),
{
    if let HubEvent::ListMine { reply: Ok(list) } = talk.list {
        if list@.len() > 0 {
            if let GitEvent::TrunkBranch { reply: Ok(branch) } = talk.trunk[0] {
                if let GitEvent::RevParse { reply: Ok(head), .. } = talk.trunk[1] {
                    let trunk = TrunkView { branch: branch@, head: head@ };
                    let s = Setting {
                        stacks,
                        index: pool_slot(before, pool),
                        trunk_head: head@,
                    };
                    let start = Adoption {
                        pools: with_pool(before, pool, trunk, Some(now)),
                        adopted: Seq::empty(),
                        skipped: Seq::empty(),
                        failed: None,
                    };
                    lemma_with_pool_keeps(stacks, before, pool, trunk, Some(now));
                    lemma_adoption_keeps(start, s, info_views(list@), talk.prs);
                    let end = start.after(s, info_views(list@), talk.prs);
                    if end.failed is None {
                        lemma_with_stamp_keeps(stacks, end.pools, s.index, now);
                    }
                }
            }
        }
    }
}

/// A branch that was just adopted has nothing unread and is not merged.
pub proof fn law_adopted_is_read(pr: PrInfoView, head: Seq<char>, base: Seq<char>)
    ensures
        adopted_branch(pr, head, base).unread() == 0,
        !adopted_branch(pr, head, base).is_merged(),
{
}

/// The lines that list one adopted branch.
pub open spec fn adopted_lines(a: AdoptedView, on: bool, err: bool) -> Seq<Seq<char>> {
    seq![
        "  "@ + style::accent_of("●"@, on) + " "@ + a.branch + "  "@ + style::secondary_of(
            "#"@ + text::decimal(a.pr_number as nat),
            on,
        ),
        "      "@ + style::url_of(a.pr_url, err),
    ]
}

/// The lines that list the adopted branches.
pub open spec fn all_adopted_lines(list: Seq<AdoptedView>, on: bool, err: bool) -> Seq<Seq<char>>
    decreases list.len(),
{
    if list.len() == 0 {
        Seq::empty()
    } else {
        all_adopted_lines(list.drop_last(), on, err) + adopted_lines(list.last(), on, err)
    }
}

/// Why a pull request was passed over, in words.
pub open spec fn reason_text(reason: SkipReason, on: bool) -> Seq<char> {
    match reason {
        SkipReason::NotLocal => style::warn_of(
            "no local branch (run `gh pr checkout` first)"@,
            on,
        ),
        SkipReason::InStack => style::dim_of("already in a stack"@, on),
        SkipReason::InPool => style::dim_of("already in a pool"@, on),
    }
}

/// The line that lists one branch passed over.
pub open spec fn skipped_line(s: (Seq<char>, SkipReason), on: bool) -> Seq<char> {
    "  "@ + style::dim_of("○"@, on) + " "@ + s.0 + "  "@ + reason_text(s.1, on)
}

/// What an adoption tells the user.
pub open spec fn outcome_text(
    adopted: Seq<AdoptedView>,
    skipped: Seq<(Seq<char>, SkipReason)>,
    label: Seq<char>,
    on: bool,
    err: bool,
) -> Seq<Seq<char>> {
    if adopted.len() == 0 && skipped.len() == 0 {
        seq!["✓ no open PRs authored by you in this repo"@]
    } else {
        (if adopted.len() > 0 {
            seq![
                "✓ adopted "@ + text::decimal(adopted.len()) + " branch(es) into pool "@ + label
                    + ":"@,
            ] + all_adopted_lines(adopted, on, err)
        } else {
            Seq::empty()
        }) + (if skipped.len() > 0 {
            seq![
                style::dim_of("ℹ"@, on) + " skipped "@ + text::decimal(skipped.len()) + ":"@,
            ] + skipped.map_values(|s: (Seq<char>, SkipReason)| skipped_line(s, on))
        } else {
            Seq::empty()
        })
    }
}

fn make_skipped_line(branch: &str, reason: SkipReason, on: bool) -> (r: String)
    ensures
        r@ == skipped_line((branch@, reason), on),
{
    let why = match reason {
        SkipReason::NotLocal => style::warn("no local branch (run `gh pr checkout` first)", on),
        SkipReason::InStack => style::dim("already in a stack", on),
        SkipReason::InPool => style::dim("already in a pool", on),
    };
    let mut s = text::cat3("  ", style::dim("○", on).as_str(), " ");
    s.append(branch);
    s.append("  ");
    s.append(why.as_str());
    s
}

/// The lines that tell the user what was adopted into the pool called `label`.
/// `on` is colour on standard output, `err` on the error stream.
pub fn render_outcome(outcome: &AdoptOutcome, label: &str, on: bool, err: bool) -> (r: Vec<String>)
    ensures
        text::views(r@) == outcome_text(
            adopted_views(outcome.adopted@),
            skipped_views(outcome.skipped@),
            label@,
            on,
            err,
        ),
{
    let ghost adopted = adopted_views(outcome.adopted@);
    let ghost skipped = skipped_views(outcome.skipped@);
    let ghost f = |s: (Seq<char>, SkipReason)| skipped_line(s, on);
    let mut out: Vec<String> = Vec::new();
    if outcome.adopted.len() == 0 && outcome.skipped.len() == 0 {
        out.push("✓ no open PRs authored by you in this repo".to_string());
        assert(text::views(out@) =~= outcome_text(adopted, skipped, label@, on, err));
        return out;
    }
    let ghost mut head: Seq<Seq<char>> = Seq::empty();
    if outcome.adopted.len() > 0 {
        let n: usize = outcome.adopted.len();
        let mut s = text::cat3(
            "✓ adopted ",
            text::to_decimal(n as u64).as_str(),
            " branch(es) into pool ",
        );
        s.append(label);
        s.append(":");
        out.push(s);
        let ghost first = text::views(out@);
        let mut i: usize = 0;
        assert(text::views(out@) =~= first + all_adopted_lines(adopted.take(0), on, err));
        while i < outcome.adopted.len()
            invariant
                i <= outcome.adopted.len(),
                adopted == adopted_views(outcome.adopted@),
                text::views(out@) == first + all_adopted_lines(adopted.take(i as int), on, err),
            decreases outcome.adopted.len() - i,
        {
            let ghost before = text::views(out@);
            let a = &outcome.adopted[i];
            assert(adopted[i as int] == a@);
            let number = text::cat("#", text::to_decimal(a.pr_number).as_str());
            let mut s = text::cat3("  ", style::accent("●", on).as_str(), " ");
            s.append(a.branch.as_str());
            s.append("  ");
            s.append(style::secondary(number.as_str(), on).as_str());
            out.push(s);
            out.push(text::cat("      ", style::url_err(a.pr_url.as_str(), err).as_str()));
            assert(adopted.take(i + 1).drop_last() =~= adopted.take(i as int));
            assert(text::views(out@) =~= before + adopted_lines(a@, on, err));
            assert(text::views(out@) =~= first + all_adopted_lines(adopted.take(i + 1), on, err));
            i = i + 1;
        }
        assert(adopted.take(outcome.adopted.len() as int) =~= adopted);
        proof {
            head = text::views(out@);
        }
        assert(first =~= seq![
            "✓ adopted "@ + text::decimal(adopted.len()) + " branch(es) into pool "@ + label@
                + ":"@,
        ]);
    }
    assert(text::views(out@) =~= head);
    if outcome.skipped.len() > 0 {
        let n: usize = outcome.skipped.len();
        let mut s = text::cat3(
            style::dim("ℹ", on).as_str(),
            " skipped ",
            text::to_decimal(n as u64).as_str(),
        );
        s.append(":");
        out.push(s);
        let ghost first = text::views(out@);
        let mut i: usize = 0;
        assert(text::views(out@) =~= first + skipped.map_values(f).take(0));
        while i < outcome.skipped.len()
            invariant
                i <= outcome.skipped.len(),
                skipped == skipped_views(outcome.skipped@),
                f == (|s: (Seq<char>, SkipReason)| skipped_line(s, on)),
                text::views(out@) == first + skipped.map_values(f).take(i as int),
            decreases outcome.skipped.len() - i,
        {
            let ghost before = text::views(out@);
            let entry = &outcome.skipped[i];
            assert(skipped[i as int] == (entry.0@, entry.1));
            let line = make_skipped_line(entry.0.as_str(), entry.1, on);
            let ghost model = line@;
            out.push(line);
            assert(text::views(out@) =~= before.push(model));
            assert(text::views(out@) =~= first + skipped.map_values(f).take(i + 1));
            i = i + 1;
        }
        assert(skipped.map_values(f).take(outcome.skipped.len() as int) =~= skipped.map_values(f));
        assert(first =~= head.push(
            style::dim_of("ℹ"@, on) + " skipped "@ + text::decimal(skipped.len()) + ":"@,
        ));
    }
    assert(text::views(out@) =~= outcome_text(adopted, skipped, label@, on, err));
    out
}

/// Whether a branch is what becomes of a pull request that git knows these
/// things of: the head is where git says its branch is, the base is the one that
/// the pull request goes to, where git says that is, and nothing is unread. A base
/// that git does not know is taken to be at the trunk's head.
pub open spec fn taken_in(
    pr: PrInfoView,
    events: Seq<GitEvent>,
    trunk_head: Seq<char>,
    b: PoolBranchView,
) -> bool {
    &&& events.len() == 3
    &&& events[0] matches GitEvent::BranchExists { name, reply: Ok(local) } && name == pr.head_ref
        && local
    &&& events[1] matches GitEvent::RevParse { rev, reply: Ok(head) } && rev == pr.head_ref
        && b.head == Some(head@)
    &&& events[2] matches GitEvent::RevParse { rev, reply } && rev == pr.base_ref && b.base == (
    match reply {
        Ok(base) => base@,
        Err(_) => trunk_head,
    })
    &&& b.branch == pr.head_ref
    &&& b.base_branch == pr.base_ref
    &&& b.pull_request matches Some(p) && p.number == pr.number && p.id == pr.id && p.url == pr.url
        && !p.merged && p.comment_count == pr.comment_count && p.seen_comment_count
        == pr.comment_count && p.mergeable == pr.mergeable
}

/// A branch is passed over as not local where git does not have it, as in a
/// stack where one holds it, as in a pool where one holds it, and for nothing
/// else.
pub proof fn law_passed_over_for_cause(
    stacks: StackFileView,
    pools: PoolFileView,
    branch: Seq<char>,
    local: bool,
)
    ensures
        match obstacle(stacks, pools, branch, local) {
            Some(SkipReason::NotLocal) => !local,
            Some(SkipReason::InStack) => local && stacked(stacks, branch),
            Some(SkipReason::InPool) => local && !stacked(stacks, branch) && in_a_pool(
                pools,
                branch,
            ),
            None => local && !stacked(stacks, branch) && !in_a_pool(pools, branch),
        },
{
    law_lookups_tell_holders(stacks, pools, branch);
}

/// Whether a branch among `from` on is what becomes of a pull request.
pub open spec fn came_in(
    pr: PrInfoView,
    events: Seq<GitEvent>,
    trunk_head: Seq<char>,
    list: Seq<PoolBranchView>,
    from: int,
) -> bool {
    exists|k: int| from <= k < list.len() && #[trigger] taken_in(pr, events, trunk_head, list[k])
}

/// Whether a pull request that git was asked about came in, or was passed over
/// for cause.
pub open spec fn judged(
    pr: PrInfoView,
    events: Seq<GitEvent>,
    s: Setting,
    end: Adoption,
    from: int,
) -> bool {
    &&& events.len() > 0
    &&& events[0] matches GitEvent::BranchExists { name, reply: Ok(local) } && name == pr.head_ref
        && {
        if !local {
            end.skipped.contains((pr.head_ref, SkipReason::NotLocal))
        } else if stacked(s.stacks, pr.head_ref) {
            end.skipped.contains((pr.head_ref, SkipReason::InStack))
        } else {
            &&& in_a_pool(end.pools, pr.head_ref)
            &&& {
                ||| end.skipped.contains((pr.head_ref, SkipReason::InPool))
                ||| came_in(pr, events, s.trunk_head, end.pools.pools[s.index].branches, from)
            }
        }
    }
}

/// Whether a branch and an entry of the report stand for the same pull request.
pub open spec fn listed_as(b: PoolBranchView, a: AdoptedView) -> bool {
    a.branch == b.branch && (b.pull_request matches Some(p) && a.pr_number == p.number && a.pr_url
        == p.url)
}

#[verifier::rlimit(40)]
proof fn lemma_adopted_so_far(
    start: Adoption,
    s: Setting,
    prs: Seq<PrInfoView>,
    talks: Seq<Seq<GitEvent>>,
)
    requires
        start.follows(s, prs, talks),
        start.failed is None,
        start.adopted.len() == 0,
        0 <= s.index < start.pools.pools.len(),
    ensures
        ({
            let end = start.after(s, prs, talks);
            let was = start.pools.pools[s.index];
            let is = end.pools.pools[s.index];
            &&& end.pools.pools.len() == start.pools.pools.len()
            &&& end.pools == (PoolFileView {
                pools: start.pools.pools.update(s.index, is),
                ..start.pools
            })
            &&& is == (PoolView { branches: is.branches, ..was })
            &&& is.branches.len() == was.branches.len() + end.adopted.len()
            &&& forall|k: int|
                0 <= k < was.branches.len() ==> #[trigger] is.branches[k] == was.branches[k]
            &&& forall|k: int|
                0 <= k < end.adopted.len() ==> listed_as(
                    is.branches[was.branches.len() + k],
                    #[trigger] end.adopted[k],
                )
            &&& end.failed is None ==> forall|i: int|
                0 <= i < talks.len() && prs[i].state == PrState::Open ==> judged(
                    prs[i],
                    #[trigger] talks[i],
                    s,
                    end,
                    was.branches.len() as int,
                )
            &&& forall|i: int|
                0 <= i < talks.len() && prs[i].state != PrState::Open ==> (
                #[trigger] talks[i]).len() == 0
        }),
    decreases talks.len(),
{
    if talks.len() > 0 {
        let rest = talks.drop_last();
        lemma_adopted_so_far(start, s, prs, rest);
        let mid = start.after(s, prs, rest);
        let end = start.after(s, prs, talks);
        let was = start.pools.pools[s.index];
        let now = mid.pools.pools[s.index];
        let is = end.pools.pools[s.index];
        let pr = prs[talks.len() - 1];
        let events = talks.last();
        let from = was.branches.len() as int;
        assert(end == mid.told(s, pr, events));
        if pr.state == PrState::Open {
            if let GitEvent::BranchExists { reply: Ok(local), .. } = events[0] {
                law_passed_over_for_cause(s.stacks, mid.pools, pr.head_ref, local);
                if let Some(reason) = obstacle(s.stacks, mid.pools, pr.head_ref, local) {
                    assert(end.skipped == mid.skipped.push((pr.head_ref, reason)));
                    assert(end.skipped[mid.skipped.len() as int] == (pr.head_ref, reason));
                } else if let GitEvent::RevParse { reply: Ok(head), .. } = events[1] {
                    let last = now.branches.len() as int;
                    assert(is.branches.len() == last + 1);
                    assert(taken_in(pr, events, s.trunk_head, is.branches[last]));
                    assert(end.pools.pools[s.index].branches[last].branch == pr.head_ref);
                    assert forall|k: int| 0 <= k < end.adopted.len() implies listed_as(
                        is.branches[was.branches.len() + k],
                        #[trigger] end.adopted[k],
                    ) by {
                        if k < mid.adopted.len() {
                            assert(end.adopted[k] == mid.adopted[k]);
                            assert(is.branches[was.branches.len() + k]
                                == now.branches[was.branches.len() + k]);
                        }
                    }
                }
            }
        }
        assert forall|k: int| 0 <= k < now.branches.len() implies #[trigger] is.branches[k]
            == now.branches[k] by {}
        if end.failed is None {
            assert forall|x: (Seq<char>, SkipReason)| #[trigger]
                mid.skipped.contains(x) implies end.skipped.contains(x) by {
                let j = choose|j: int| 0 <= j < mid.skipped.len() && mid.skipped[j] == x;
                assert(end.skipped[j] == x);
            }
            assert forall|n: Seq<char>| in_a_pool(mid.pools, n) implies #[trigger] in_a_pool(
                end.pools,
                n,
            ) by {
                let (q, i) = choose|q: int, i: int|
                    0 <= q < mid.pools.pools.len() && 0 <= i < mid.pools.pools[q].branches.len()
                        && (#[trigger] mid.pools.pools[q].branches[i]).branch == n;
                assert(end.pools.pools[q].branches[i] == mid.pools.pools[q].branches[i]);
            }
            assert forall|i: int|
                0 <= i < talks.len() && prs[i].state == PrState::Open implies judged(
                prs[i],
                #[trigger] talks[i],
                s,
                end,
                from,
            ) by {
                if i < rest.len() {
                    assert(rest[i] == talks[i]);
                    assert(judged(prs[i], rest[i], s, mid, from));
                    if came_in(prs[i], rest[i], s.trunk_head, now.branches, from) {
                        let k = choose|k: int|
                            from <= k < now.branches.len() && #[trigger] taken_in(
                                prs[i],
                                rest[i],
                                s.trunk_head,
                                now.branches[k],
                            );
                        assert(taken_in(prs[i], talks[i], s.trunk_head, is.branches[k]));
                    }
                }
            }
        }
        assert forall|i: int| 0 <= i < talks.len() && prs[i].state != PrState::Open implies (
        #[trigger] talks[i]).len() == 0 by {
            if i < rest.len() {
                assert(rest[i] == talks[i]);
            }
        }
    }
}

/// What an adoption that went through does with a list of pull requests: every
/// open one either comes in, on the base that it goes to, with its head and base
/// where git says they are, or is passed over for cause. The others are not asked
/// about. The branches that were there stay, the report lists those that came
/// in, in order, and the time is recorded. No other pool changes.
#[verifier::rlimit(40)]
pub proof fn law_adopt_takes_in_open(
    talk: AdoptTalk,
    list: Seq<PrInfoView>,
    trunk: TrunkView,
    stacks: StackFileView,
    before: PoolFileView,
    pool: Option<Seq<char>>,
    now: Seq<char>,
    after: PoolFileView,
    r: Result<AdoptOutcome, StackError>,
    at: int,
)
    requires
        adopts_list(talk, list, trunk, stacks, before, pool, now, after, r),
        r is Ok,
        at == pool_slot(before, pool),
    ensures
        ({
            let end = Adoption {
                pools: after,
                adopted: adopted_views(r->Ok_0.adopted@),
                skipped: skipped_views(r->Ok_0.skipped@),
                failed: None,
            };
            let s = Setting { stacks, index: at, trunk_head: trunk.head };
            let is = after.pools[at].branches;
            let had: int = if at < before.pools.len() {
                before.pools[at].branches.len() as int
            } else {
                0
            };
            &&& talk.prs.len() == list.len()
            &&& forall|i: int|
                0 <= i < list.len() && (#[trigger] list[i]).state == PrState::Open ==> judged(
                    list[i],
                    talk.prs[i],
                    s,
                    end,
                    had,
                )
            &&& forall|i: int|
                0 <= i < list.len() && (#[trigger] list[i]).state != PrState::Open
                    ==> talk.prs[i].len() == 0
            &&& is.len() == had + end.adopted.len()
            &&& forall|k: int|
                0 <= k < had ==> #[trigger] is[k] == before.pools[at].branches[k]
            &&& forall|k: int|
                0 <= k < end.adopted.len() ==> listed_as(is[had + k], #[trigger] end.adopted[k])
            &&& after.pools[at].name == pool
            &&& after.pools[at].last_refreshed_at == Some(now)
            &&& at >= before.pools.len() ==> after.pools[at].trunk == trunk
            &&& at < before.pools.len() ==> after.pools[at].trunk == before.pools[at].trunk
            &&& forall|p: int|
                0 <= p < before.pools.len() && p != at ==> #[trigger] after.pools[p]
                    == before.pools[p]
        }),
{
    let s = Setting { stacks, index: at, trunk_head: trunk.head };
    let start = Adoption {
        pools: with_pool(before, pool, trunk, Some(now)),
        adopted: Seq::empty(),
        skipped: Seq::empty(),
        failed: None,
    };
    seqs::lemma_first_where_is(before.pools, crate::domain::pool::called(pool));
    lemma_adopted_so_far(start, s, list, talk.prs);
    let mid = start.after(s, list, talk.prs);
    let end = Adoption {
        pools: after,
        adopted: adopted_views(r->Ok_0.adopted@),
        skipped: skipped_views(r->Ok_0.skipped@),
        failed: None,
    };
    let is = after.pools[at].branches;
    let had = start.pools.pools[at].branches.len() as int;
    assert(is == mid.pools.pools[at].branches);
    assert forall|n: Seq<char>| in_a_pool(mid.pools, n) implies #[trigger] in_a_pool(after, n) by {
        let (q, i) = choose|q: int, i: int|
            0 <= q < mid.pools.pools.len() && 0 <= i < mid.pools.pools[q].branches.len() && (
            #[trigger] mid.pools.pools[q].branches[i]).branch == n;
        assert(after.pools[q].branches[i] == mid.pools.pools[q].branches[i]);
    }
    assert forall|i: int|
        0 <= i < list.len() && (#[trigger] list[i]).state == PrState::Open implies judged(
        list[i],
        talk.prs[i],
        s,
        end,
        had,
    ) by {
        assert(judged(list[i], talk.prs[i], s, mid, had));
    }
    assert forall|k: int| 0 <= k < had implies #[trigger] is[k] == before.pools[at].branches[k] by {
        assert(is[k] == mid.pools.pools[at].branches[k]);
    }
}

/// The trunk and the list that an adoption works on are those that git and
/// GitHub gave, and it stops at the first error of either without touching the
/// pools.
pub proof fn law_adopt_goes_by_answers(
    talk: AdoptTalk,
    stacks: StackFileView,
    before: PoolFileView,
    pool: Option<Seq<char>>,
    now: Seq<char>,
    after: PoolFileView,
    r: Result<AdoptOutcome, StackError>,
)
    requires
        adopts(talk, stacks, before, pool, now, after, r),
    ensures
        match talk.list {
            HubEvent::ListMine { reply: Ok(list) } => {
                &&& list@.len() == 0 ==> talk.git().len() == 0 && after == before && r is Ok
                &&& list@.len() > 0 ==> {
                    let e = talk.git();
                    &&& e.len() > 0
                    &&& match e[0] {
                        GitEvent::TrunkBranch { reply: Ok(b) } => {
                            &&& e.len() > 1
                            &&& match e[1] {
                                GitEvent::RevParse { rev, reply: Ok(h) } => rev == b@
                                    && adopts_list(
                                    talk,
                                    info_views(list@),
                                    TrunkView { branch: b@, head: h@ },
                                    stacks,
                                    before,
                                    pool,
                                    now,
                                    after,
                                    r,
                                ),
                                GitEvent::RevParse { rev, reply: Err(f) } => rev == b@ && e.len()
                                    == 2 && after == before && (r matches Err(x) && x@ == f@),
                                _ => false,
                            }
                        },
                        GitEvent::TrunkBranch { reply: Err(f) } => e.len() == 1 && after == before
                            && (r matches Err(x) && x@ == f@),
                        _ => false,
                    }
                }
            },
            HubEvent::ListMine { reply: Err(f) } => talk.git().len() == 0 && after == before && (
            r matches Err(x) && x@ == f@),
            _ => false,
        },
{
    let none: Seq<GitEvent> = seqs::joined(Seq::empty());
    if talk.prs.len() == 0 {
        assert(talk.prs =~= Seq::empty());
        assert(none.len() == 0);
    }
    let e = talk.git();
    if talk.trunk.len() > 0 {
        assert(e[0] == talk.trunk[0]);
    }
    if talk.trunk.len() > 1 {
        assert(e[1] == talk.trunk[1]);
    }
}

/// An adoption tells every branch that came in, with its number and below it the
/// address of its pull request.
pub proof fn law_adopted_is_told(list: Seq<AdoptedView>, on: bool, err: bool, k: int) -> (l: int)
    requires
        0 <= k < list.len(),
    ensures
        ({
            let lines = all_adopted_lines(list, on, err);
            &&& 0 <= l < lines.len() - 1
            &&& text::has_part(lines[l], list[k].branch)
            &&& text::has_part(lines[l], "#"@ + text::decimal(list[k].pr_number as nat))
            &&& text::has_part(lines[l + 1], list[k].pr_url)
        }),
    decreases list.len(),
{
    let rest = list.drop_last();
    let below = all_adopted_lines(rest, on, err);
    let all = all_adopted_lines(list, on, err);
    if k < rest.len() {
        assert(rest[k] == list[k]);
        let l = law_adopted_is_told(rest, on, err, k);
        assert(all[l] == below[l] && all[l + 1] == below[l + 1]);
        l
    } else {
        let a = list[k];
        let own = adopted_lines(a, on, err);
        let l = below.len() as int;
        assert(all[l] == own[0] && all[l + 1] == own[1]);
        let number = "#"@ + text::decimal(a.pr_number as nat);
        let shown = style::secondary_of(number, on);
        style::law_styled_holds_text(number, "38;5;250"@, on);
        style::law_styled_holds_text(a.pr_url, "4;38;5;250"@, err);
        text::lemma_part_whole(a.branch);
        let head = "  "@ + style::accent_of("●"@, on) + " "@;
        text::lemma_part_right(head, a.branch, a.branch);
        text::lemma_part_left(head + a.branch, "  "@, a.branch);
        text::lemma_part_left(head + a.branch + "  "@, shown, a.branch);
        text::lemma_part_right(head + a.branch + "  "@, shown, number);
        text::lemma_part_right("      "@, style::url_of(a.pr_url, err), a.pr_url);
        l
    }
}

/// A branch that was passed over is told with the reason.
pub proof fn law_skip_is_told(branch: Seq<char>, reason: SkipReason, on: bool)
    ensures
        ({
            let line = skipped_line((branch, reason), on);
            &&& text::has_part(line, branch)
            &&& reason == SkipReason::NotLocal ==> text::has_part(
                line,
                "no local branch (run `gh pr checkout` first)"@,
            )
            &&& reason == SkipReason::InStack ==> text::has_part(line, "already in a stack"@)
            &&& reason == SkipReason::InPool ==> text::has_part(line, "already in a pool"@)
        }),
{
    let head = "  "@ + style::dim_of("○"@, on) + " "@;
    let why = reason_text(reason, on);
    style::law_styled_holds_text(
        "no local branch (run `gh pr checkout` first)"@,
        "38;5;215"@,
        on,
    );
    style::law_styled_holds_text("already in a stack"@, "38;5;244"@, on);
    style::law_styled_holds_text("already in a pool"@, "38;5;244"@, on);
    text::lemma_part_whole(branch);
    text::lemma_part_right(head, branch, branch);
    text::lemma_part_left(head + branch, "  "@, branch);
    text::lemma_part_left(head + branch + "  "@, why, branch);
    assert forall|part: Seq<char>| #[trigger] text::has_part(why, part) implies text::has_part(
        skipped_line((branch, reason), on),
        part,
    ) by {
        text::lemma_part_right(head + branch + "  "@, why, part);
    }
}

} // verus!
