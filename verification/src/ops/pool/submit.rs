//! `pool submit`: push every active branch of a pool and open a pull request
//! for each that has none. Pool branches are independent, so each pull request
//! targets the branch's own base.

use vstd::prelude::*;

use crate::domain::error::{Fault, StackError};
use crate::domain::pool::{
    branch_views, pool_views, Pool, PoolBranch, PoolBranchView, PoolFile, PoolFileView,
    PoolPullRequest, PoolPullRequestView, PoolView,
};
use crate::domain::stack::{
    asked_commits, item_views, lemma_asked_more, ActionView, ItemView, SubmitAction, SubmitPlanItem,
};
use crate::git::{commit_views, GitEvent, GitOps};
use crate::github::{CreateView, GitHub, HubEvent, PrInfoView, PrState};
use crate::ops::pool::{chosen_pool, law_choice_goes_by_name, refresh, resolve_pool_index};
use crate::ops::submit::{
    auto_title_body_from_commits, names_to_push, ItemTalk, ReportView, SubmitReport,
};
use crate::ops::submit as stack_submit;
use crate::text;

verus! {

#[derive(Debug)]
pub struct SubmitArgs {
    pub pool: Option<String>,
    pub draft: bool,
    pub remote: String,
    pub no_refresh: bool,
}

/// What is done with a branch, where that needs no look at its commits.
pub open spec fn quick_action(b: PoolBranchView) -> Option<ActionView> {
    if b.is_merged() {
        Some(ActionView::SkipMerged)
    } else {
        match b.pull_request {
            Some(p) => Some(ActionView::RefreshExisting { number: p.number }),
            None => None,
        }
    }
}

/// How far the planning of a submission has come.
#[verifier::ext_equal]
pub struct Planning {
    pub pool: PoolView,
    pub items: Seq<ItemView>,
    pub failed: Option<Fault>,
}

/// The plan `items`, and what follows for the branches that need no look at
/// their commits, up to the next that does.
pub open spec fn settled(pool: PoolView, items: Seq<ItemView>) -> Seq<ItemView>
    decreases pool.branches.len() - items.len(),
{
    if items.len() >= pool.branches.len() {
        items
    } else {
        let b = pool.branches[items.len() as int];
        match quick_action(b) {
            Some(action) => settled(
                pool,
                items.push(
                    ItemView { branch_index: items.len() as int, branch: b.branch, action },
                ),
            ),
            None => items,
        }
    }
}

impl Planning {
    pub open spec fn start(pool: PoolView) -> Planning {
        Planning { pool, items: settled(pool, Seq::empty()), failed: None }
    }

    pub open spec fn done(self) -> bool {
        self.failed is Some || self.items.len() >= self.pool.branches.len()
    }

    /// The branch whose commits are to be looked at.
    pub open spec fn subject(self) -> PoolBranchView {
        self.pool.branches[self.items.len() as int]
    }

    /// The base that its commits are counted from.
    pub open spec fn base(self) -> Seq<char> {
        self.subject().effective_base(self.pool.trunk.branch)
    }

    pub open spec fn asks(self, e: GitEvent) -> bool {
        &&& !self.done()
        &&& e matches GitEvent::Commits { base, branch, .. } && base == self.base() && branch
            == self.subject().branch
    }

    pub open spec fn told(self, e: GitEvent) -> Planning {
        match e {
            GitEvent::Commits { reply: Ok(commits), .. } => Planning {
                items: settled(
                    self.pool,
                    self.items.push(
                        ItemView {
                            branch_index: self.items.len() as int,
                            branch: self.subject().branch,
                            action: if commits@.len() == 0 {
                                ActionView::SkipEmpty
                            } else {
                                ActionView::Create { base: self.base() }
                            },
                        },
                    ),
                ),
                ..self
            },
            GitEvent::Commits { reply: Err(e), .. } => Planning { failed: Some(e@), ..self },
            _ => self,
        }
    }

    pub open spec fn after(self, events: Seq<GitEvent>) -> Planning
        decreases events.len(),
    {
        if events.len() == 0 {
            self
        } else {
            self.after(events.drop_last()).told(events.last())
        }
    }

    pub open spec fn follows(self, events: Seq<GitEvent>) -> bool
        decreases events.len(),
    {
        events.len() > 0 ==> self.follows(events.drop_last()) && self.after(
            events.drop_last(),
        ).asks(events.last())
    }
}

/// Whether `events` are the whole planning of a submission of `pool` that
/// returns `r`.
pub open spec fn plans(
    pool: PoolView,
    events: Seq<GitEvent>,
    r: Result<Vec<SubmitPlanItem>, StackError>,
) -> bool {
    let end = Planning::start(pool).after(events);
    &&& Planning::start(pool).follows(events)
    &&& end.done()
    &&& match r {
        Ok(plan) => end.failed is None && item_views(plan@) == end.items,
        Err(e) => end.failed == Some(e@),
    }
}

/// Whether the item at `i` is right for its branch: merged branches are
/// skipped, those with a pull request refreshed, and of the others each is
/// either empty or gets a pull request against its own base.
pub open spec fn item_fits(pool: PoolView, items: Seq<ItemView>, i: int) -> bool {
    let b = pool.branches[i];
    &&& items[i].branch_index == i
    &&& items[i].branch == b.branch
    &&& match quick_action(b) {
        Some(action) => items[i].action == action,
        None => items[i].action == ActionView::SkipEmpty || items[i].action == (
        ActionView::Create { base: b.effective_base(pool.trunk.branch) }),
    }
}

/// Plan one action per branch, in the pool's order. The second half of the
/// contract says what the plan comes to: one item for each branch, each right
/// for its branch.
pub fn submit_plan<G: GitOps>(pool: &Pool, git: &mut G) -> (r: Result<
    Vec<SubmitPlanItem>,
    StackError,
>)
    ensures
        exists|events: Seq<GitEvent>|
            #[trigger] plans(pool@, events, r) && final(git).history() == old(git).history()
                + events,
        r matches Ok(plan) ==> plan@.len() == pool.branches@.len() && forall|i: int|
            0 <= i < plan@.len() ==> #[trigger] item_fits(pool@, item_views(plan@), i),
{
    let ghost start = Planning::start(pool@);
    let ghost mut events: Seq<GitEvent> = Seq::empty();
    let mut plan: Vec<SubmitPlanItem> = Vec::new();
    let mut i: usize = 0;
    assert(git.history() =~= old(git).history() + events);
    assert(item_views(plan@) =~= Seq::<ItemView>::empty());
    while i < pool.branches.len()
        invariant
            i <= pool.branches.len(),
            plan@.len() == i,
            start == Planning::start(pool@),
            git.history() == old(git).history() + events,
            start.follows(events),
            start.after(events) == (Planning {
                pool: pool@,
                items: settled(pool@, item_views(plan@)),
                failed: None,
            }),
            forall|j: int| 0 <= j < i ==> #[trigger] item_fits(pool@, item_views(plan@), j),
        decreases pool.branches.len() - i,
    {
        let ghost items = item_views(plan@);
        let b = &pool.branches[i];
        assert(pool@.branches[i as int] == b@);
        let action = if b.is_merged() {
            SubmitAction::SkipMerged
        } else if let Some(pr) = &b.pull_request {
            SubmitAction::RefreshExisting { number: pr.number }
        } else {
            let base = b.effective_base_branch(pool).to_string();
            let reply = git.commits_between(base.as_str(), b.branch.as_str());
            let ghost e = GitEvent::Commits { base: base@, branch: b.branch@, reply };
            proof {
                assert(events.push(e).drop_last() =~= events);
                assert(git.history() =~= old(git).history() + events.push(e));
                events = events.push(e);
            }
            match reply {
                Err(err) => {
                    assert(plans(pool@, events, Err(err)));
                    return Err(err);
                },
                Ok(commits) => if commits.len() == 0 {
                    SubmitAction::SkipEmpty
                } else {
                    SubmitAction::Create { base }
                },
            }
        };
        let item = SubmitPlanItem { branch_index: i, branch: b.branch.clone(), action };
        let ghost model = item@;
        plan.push(item);
        proof {
            assert(item_views(plan@) =~= items.push(model));
            assert forall|j: int| 0 <= j < i + 1 implies #[trigger] item_fits(
                pool@,
                item_views(plan@),
                j,
            ) by {
                if j < i {
                    assert(item_fits(pool@, items, j));
                }
            }
        }
        i = i + 1;
    }
    assert(plans(pool@, events, Ok(plan)));
    Ok(plan)
}

/// What is recorded of a pull request that was just opened: nothing on it is
/// unread.
pub open spec fn opened_pr(info: PrInfoView) -> PoolPullRequestView {
    PoolPullRequestView {
        number: info.number,
        id: info.id,
        url: info.url,
        merged: info.state == PrState::Merged,
        comment_count: info.comment_count,
        seen_comment_count: info.comment_count,
        mergeable: info.mergeable,
    }
}

/// The branch after its item was carried out.
pub open spec fn item_result(talk: ItemTalk, item: ItemView, b: PoolBranchView) -> PoolBranchView {
    if talk.failed(item) is Some {
        b
    } else {
        match item.action {
            ActionView::RefreshExisting { .. } => match talk.hub[0] {
                HubEvent::View { reply: Ok(info), .. } => PoolBranchView {
                    pull_request: Some(refresh::updated_pr(b, info@)),
                    ..b
                },
                _ => b,
            },
            ActionView::Create { .. } => match talk.hub[0] {
                HubEvent::Create { reply: Ok(info), .. } => PoolBranchView {
                    pull_request: Some(opened_pr(info@)),
                    ..b
                },
                _ => b,
            },
            _ => b,
        }
    }
}

/// The branches after `talks`; the item at `i` is for the branch at `i`.
pub open spec fn all_results(
    talks: Seq<ItemTalk>,
    items: Seq<ItemView>,
    branches: Seq<PoolBranchView>,
) -> Seq<PoolBranchView> {
    Seq::new(
        branches.len(),
        |i: int|
            if i < talks.len() {
                item_result(talks[i], items[i], branches[i])
            } else {
                branches[i]
            },
    )
}

fn run_item<G: GitOps, H: GitHub>(
    git: &mut G,
    gh: &mut H,
    item: &SubmitPlanItem,
    b: &mut PoolBranch,
    draft: bool,
) -> (r: (Result<(), StackError>, Ghost<ItemTalk>))
    ensures
        final(git).history() == old(git).history() + r.1@.git,
        final(gh).history() == old(gh).history() + r.1@.hub,
        r.1@.complete(item@, draft),
        final(b)@ == item_result(r.1@, item@, old(b)@),
        match r.1@.failed(item@) {
            Some(f) => r.0 matches Err(e) && e@ == f,
            None => r.0 is Ok,
        },
{
    let ghost no_git = Seq::<GitEvent>::empty();
    let ghost no_hub = Seq::<HubEvent>::empty();
    assert(git.history() =~= git.history() + no_git);
    assert(gh.history() =~= gh.history() + no_hub);
    match &item.action {
        SubmitAction::SkipMerged => (Ok(()), Ghost(ItemTalk { git: no_git, hub: no_hub })),
        SubmitAction::SkipEmpty => (Ok(()), Ghost(ItemTalk { git: no_git, hub: no_hub })),
        SubmitAction::RefreshExisting { number } => {
            let reply = gh.view_pr(*number);
            let ghost talk = ItemTalk {
                git: no_git,
                hub: seq![HubEvent::View { number: *number, reply }],
            };
            assert(gh.history() =~= old(gh).history() + talk.hub);
            match reply {
                Err(e) => (Err(e), Ghost(talk)),
                Ok(info) => {
                    let seen: u64 = match &b.pull_request {
                        Some(p) => p.seen_comment_count,
                        None => 0,
                    };
                    b.pull_request = Some(
                        PoolPullRequest {
                            number: info.number,
                            id: info.id,
                            url: info.url,
                            merged: info.state == PrState::Merged,
                            comment_count: info.comment_count,
                            seen_comment_count: seen,
                            mergeable: info.mergeable,
                        },
                    );
                    (Ok(()), Ghost(talk))
                },
            }
        },
        SubmitAction::Create { base } => {
            let reply = git.commits_between(base.as_str(), item.branch.as_str());
            let ghost asked = seq![
                GitEvent::Commits { base: base@, branch: item.branch@, reply },
            ];
            assert(git.history() =~= old(git).history() + asked);
            match reply {
                Err(e) => (Err(e), Ghost(ItemTalk { git: asked, hub: no_hub })),
                Ok(commits) => {
                    let (title, body) = auto_title_body_from_commits(
                        item.branch.as_str(),
                        &commits,
                    );
                    let made = gh.create_pr(
                        item.branch.as_str(),
                        base.as_str(),
                        title.as_str(),
                        body.as_str(),
                        draft,
                    );
                    let ghost call = CreateView {
                        head: item.branch@,
                        base: base@,
                        title: title@,
                        body: body@,
                        draft,
                    };
                    let ghost talk = ItemTalk {
                        git: asked,
                        hub: seq![HubEvent::Create { call, reply: made }],
                    };
                    assert(gh.history() =~= old(gh).history() + talk.hub);
                    match made {
                        Err(e) => (Err(e), Ghost(talk)),
                        Ok(info) => {
                            b.pull_request = Some(
                                PoolPullRequest {
                                    number: info.number,
                                    id: info.id,
                                    url: info.url,
                                    merged: info.state == PrState::Merged,
                                    comment_count: info.comment_count,
                                    seen_comment_count: info.comment_count,
                                    mergeable: info.mergeable,
                                },
                            );
                            (Ok(()), Ghost(talk))
                        },
                    }
                },
            }
        },
    }
}

fn run_items<G: GitOps, H: GitHub>(
    git: &mut G,
    gh: &mut H,
    plan: &Vec<SubmitPlanItem>,
    list: &mut Vec<PoolBranch>,
    draft: bool,
) -> (r: (Result<(), StackError>, usize, Ghost<Seq<ItemTalk>>))
    requires
        plan@.len() == old(list)@.len(),
    ensures
        final(git).history() == old(git).history() + stack_submit::git_events(r.2@),
        final(gh).history() == old(gh).history() + stack_submit::hub_events(r.2@),
        stack_submit::in_turn(r.2@, item_views(plan@), draft),
        branch_views(final(list)@) == all_results(
            r.2@,
            item_views(plan@),
            branch_views(old(list)@),
        ),
        match r.0 {
            Ok(()) => r.1 == plan@.len() && r.2@.len() == plan@.len() && (r.2@.len() > 0 ==> r.2@.last().failed(
                item_views(plan@)[r.2@.len() - 1],
            ) is None),
            Err(e) => r.2@.len() > 0 && r.1 == r.2@.len() - 1 && r.2@.last().failed(item_views(plan@)[r.2@.len() - 1])
                == Some(e@),
        },
{
    let ghost branches = branch_views(list@);
    let ghost items = item_views(plan@);
    let ghost mut talks: Seq<ItemTalk> = Seq::empty();
    let n: usize = plan.len();
    let mut i: usize = 0;
    assert(git.history() =~= old(git).history() + stack_submit::git_events(talks));
    assert(gh.history() =~= old(gh).history() + stack_submit::hub_events(talks));
    assert(branches =~= all_results(talks, items, branches));
    while i < n
        invariant
            i <= n,
            n == plan@.len(),
            list@.len() == n,
            old(list)@.len() == n,
            branches == branch_views(old(list)@),
            items == item_views(plan@),
            talks.len() == i,
            stack_submit::in_turn(talks, items, draft),
            talks.len() > 0 ==> talks.last().failed(items[i - 1]) is None,
            branch_views(list@) == all_results(talks, items, branches),
            git.history() == old(git).history() + stack_submit::git_events(talks),
            gh.history() == old(gh).history() + stack_submit::hub_events(talks),
        decreases n - i,
    {
        let ghost mid = list@;
        assert(items[i as int] == plan@[i as int]@);
        assert(branch_views(mid)[i as int] == mid[i as int]@);
        assert(all_results(talks, items, branches)[i as int] == branches[i as int]);
        let (outcome, Ghost(talk)) = run_item(git, gh, &plan[i], &mut list[i], draft);
        let ghost more = talks.push(talk);
        proof {
            assert(more.drop_last() =~= talks);
            assert(git.history() =~= old(git).history() + stack_submit::git_events(more));
            assert(gh.history() =~= old(gh).history() + stack_submit::hub_events(more));
            assert(branch_views(list@) =~= branch_views(mid).update(
                i as int,
                item_result(talk, items[i as int], branches[i as int]),
            ));
            assert(branch_views(list@) =~= all_results(more, items, branches));
            assert forall|j: int| 0 <= j < more.len() implies (#[trigger] more[j]).complete(
                items[j],
                draft,
            ) by {
                if j < i {
                    assert(more[j] == talks[j]);
                }
            }
            assert forall|j: int| 0 <= j < more.len() - 1 implies (#[trigger] more[j]).failed(
                items[j],
            ) is None by {
                assert(more[j] == talks[j]);
            }
        }
        match outcome {
            Err(e) => {
                return (Err(e), i, Ghost(more));
            },
            Ok(()) => {},
        }
        proof {
            talks = more;
        }
        i = i + 1;
    }
    (Ok(()), n, Ghost(talks))
}

/// What was asked to submit one pool, once its pull requests are refreshed.
pub struct PoolSubmission {
    pub planning: Seq<GitEvent>,
    pub push: Seq<GitEvent>,
    pub items: Seq<ItemTalk>,
}

impl PoolSubmission {
    pub open spec fn git(self) -> Seq<GitEvent> {
        self.planning + self.push + stack_submit::git_events(self.items)
    }

    pub open spec fn hub(self) -> Seq<HubEvent> {
        stack_submit::hub_events(self.items)
    }

    pub open spec fn plan(self, before: PoolView) -> Planning {
        Planning::start(before).after(self.planning)
    }

    /// Whether this submits the pool, as far as nothing failed: plan, then
    /// push what is acted on, then carry out the plan.
    pub open spec fn complete(self, before: PoolView, remote: Seq<char>, draft: bool) -> bool {
        let plan = self.plan(before);
        &&& Planning::start(before).follows(self.planning)
        &&& plan.done()
        &&& if plan.failed is Some {
            self.push.len() == 0 && self.items.len() == 0
        } else {
            &&& stack_submit::pushes(self.push, remote, stack_submit::acted_names(plan.items))
            &&& if stack_submit::push_failed(self.push) is Some {
                self.items.len() == 0
            } else {
                &&& stack_submit::in_turn(self.items, plan.items, draft)
                &&& self.items.len() < plan.items.len() ==> self.items_failed(before) is Some
            }
        }
    }

    /// Why carrying out the plan failed.
    pub open spec fn items_failed(self, before: PoolView) -> Option<Fault> {
        if self.items.len() == 0 {
            None
        } else {
            self.items.last().failed(self.plan(before).items[self.items.len() - 1])
        }
    }

    /// Why the submission failed.
    pub open spec fn failed(self, before: PoolView) -> Option<Fault> {
        match self.plan(before).failed {
            Some(f) => Some(f),
            None => match stack_submit::push_failed(self.push) {
                Some(f) => Some(f),
                None => self.items_failed(before),
            },
        }
    }

    /// How many branches were pushed, where it came to that.
    pub open spec fn pushed(self, before: PoolView) -> Option<nat> {
        if self.plan(before).failed is Some || stack_submit::push_failed(self.push) is Some {
            None
        } else {
            Some(stack_submit::acted_names(self.plan(before).items).len())
        }
    }

    /// The steps that were carried out.
    pub open spec fn done(self, before: PoolView) -> Seq<ItemView> {
        self.plan(before).items.take(
            if self.items_failed(before) is Some {
                self.items.len() - 1
            } else {
                self.items.len() as int
            },
        )
    }

    /// The pool afterwards: a submission that failed leaves the timestamp.
    pub open spec fn result(self, before: PoolView, now: Seq<char>) -> PoolView {
        PoolView {
            branches: all_results(self.items, self.plan(before).items, before.branches),
            last_refreshed_at: if self.failed(before) is Some {
                before.last_refreshed_at
            } else {
                Some(now)
            },
            ..before
        }
    }
}

fn submit_pool<G: GitOps, H: GitHub>(
    git: &mut G,
    gh: &mut H,
    pool: &mut Pool,
    remote: &str,
    draft: bool,
    now: &str,
    report: &mut SubmitReport,
) -> (r: (Result<(), StackError>, Ghost<PoolSubmission>))
    requires
        old(report)@.pushed is None,
        old(report)@.done.len() == 0,
    ensures
        final(git).history() == old(git).history() + r.1@.git(),
        final(gh).history() == old(gh).history() + r.1@.hub(),
        r.1@.complete(old(pool)@, remote@, draft),
        final(pool)@ == r.1@.result(old(pool)@, now@),
        final(report)@ == (ReportView {
            newly_merged: old(report)@.newly_merged,
            pushed: r.1@.pushed(old(pool)@),
            done: r.1@.done(old(pool)@),
        }),
        match r.0 {
            Ok(()) => r.1@.failed(old(pool)@) is None,
            Err(e) => r.1@.failed(old(pool)@) == Some(e@),
        },
{
    let ghost before = pool@;
    let ghost none: Seq<ItemTalk> = Seq::empty();
    let ghost no_push: Seq<GitEvent> = Seq::empty();
    let planned = submit_plan(pool, git);
    let ghost planning = choose|events: Seq<GitEvent>|
        #[trigger] plans(before, events, planned) && git.history() == old(git).history() + events;
    let mut plan = match planned {
        Err(e) => {
            let ghost talk = PoolSubmission { planning, push: no_push, items: none };
            assert(git.history() =~= old(git).history() + talk.git());
            assert(gh.history() =~= old(gh).history() + talk.hub());
            assert(pool@.branches =~= talk.result(before, now@).branches);
            assert(report@.done =~= talk.done(before));
            return (Err(e), Ghost(talk));
        },
        Ok(plan) => plan,
    };
    let names = names_to_push(&plan);
    assert(names@.len() == text::views(names@).len());
    let ghost mut push: Seq<GitEvent> = Seq::empty();
    if names.len() > 0 {
        let reply = git.push_atomic(remote, names.as_slice());
        proof {
            push = push.push(
                GitEvent::Push { remote: remote@, branches: text::views(names@), reply },
            );
        }
        if let Err(e) = reply {
            let ghost talk = PoolSubmission { planning, push, items: none };
            assert(git.history() =~= old(git).history() + talk.git());
            assert(gh.history() =~= old(gh).history() + talk.hub());
            assert(pool@.branches =~= talk.result(before, now@).branches);
            assert(report@.done =~= talk.done(before));
            return (Err(e), Ghost(talk));
        }
    }
    assert(git.history() =~= old(git).history() + planning + push);
    let (outcome, count, Ghost(talks)) = run_items(git, gh, &plan, &mut pool.branches, draft);
    let ghost talk = PoolSubmission { planning, push, items: talks };
    assert(git.history() =~= old(git).history() + talk.git());
    report.pushed = Some(names.len());
    proof {
        assert(item_views(plan@).take(count as int) =~= item_views(
            plan@.subrange(0, count as int),
        ));
    }
    plan.truncate(count);
    report.done = plan;
    assert(report@.done =~= talk.done(before));
    match outcome {
        Err(e) => (Err(e), Ghost(talk)),
        Ok(()) => {
            pool.last_refreshed_at = Some(now.to_string());
            (Ok(()), Ghost(talk))
        },
    }
}

/// What was asked in one run of `submit`.
pub struct SubmitTalk {
    pub refresh: Option<Seq<refresh::BranchTalk>>,
    pub pool: Option<PoolSubmission>,
}

impl SubmitTalk {
    pub open spec fn git(self) -> Seq<GitEvent> {
        match self.pool {
            Some(p) => p.git(),
            None => Seq::empty(),
        }
    }

    pub open spec fn hub(self) -> Seq<HubEvent> {
        (match self.refresh {
            Some(t) => refresh::all_events(t),
            None => Seq::empty(),
        }) + match self.pool {
            Some(p) => p.hub(),
            None => Seq::empty(),
        }
    }
}

/// Whether `talk` submits the pool at `index`: refresh first, unless that was
/// declined, then plan, push and carry out the plan.
pub open spec fn submits_pool(
    talk: SubmitTalk,
    before: PoolFileView,
    index: int,
    args: SubmitArgs,
    now: Seq<char>,
    after: PoolFileView,
    r: Result<(), StackError>,
    report: ReportView,
) -> bool {
    let pool = before.pools[index];
    let mid = match talk.refresh {
        Some(t) => refresh::refreshed_pool(t, pool, now),
        None => pool,
    };
    let refresh_failed = match talk.refresh {
        Some(t) => refresh::failure(t, pool.branches),
        None => None,
    };
    &&& args.no_refresh == (talk.refresh is None)
    &&& talk.refresh matches Some(t) ==> refresh::complete(t, pool.branches)
    &&& match refresh_failed {
        Some(f) => {
            &&& talk.pool is None
            &&& after == (PoolFileView { pools: before.pools.update(index, mid), ..before })
            &&& r matches Err(e) && e@ == f
            &&& report == ReportView::blank()
        },
        None => {
            &&& talk.pool matches Some(p)
            &&& p.complete(mid, args.remote@, args.draft)
            &&& after == (PoolFileView {
                pools: before.pools.update(index, p.result(mid, now)),
                ..before
            })
            &&& report == (ReportView {
                newly_merged: match talk.refresh {
                    Some(t) => refresh::all_merged(t, pool.branches).len(),
                    None => 0,
                },
                pushed: p.pushed(mid),
                done: p.done(mid),
            })
            &&& match p.failed(mid) {
                Some(f) => r matches Err(e) && e@ == f,
                None => r is Ok,
            }
        },
    }
}

/// Whether `talk` is a run of `submit` that turns one file into another and
/// returns `r`.
pub open spec fn submits(
    talk: SubmitTalk,
    before: PoolFileView,
    args: SubmitArgs,
    now: Seq<char>,
    after: PoolFileView,
    r: Result<(), StackError>,
    report: ReportView,
) -> bool {
    match chosen_pool(before, text::opt_view(args.pool)) {
        Err(f) => {
            &&& talk.refresh is None && talk.pool is None && after == before
            &&& report == ReportView::blank()
            &&& r matches Err(e) && e@ == f
        },
        Ok(index) => submits_pool(talk, before, index, args, now, after, r, report),
    }
}

/// Push a pool and open or refresh its pull requests. `now` is recorded as the
/// time of the refresh.
pub fn submit<G: GitOps, H: GitHub>(
    git: &mut G,
    gh: &mut H,
    file: &mut PoolFile,
    args: &SubmitArgs,
    now: &str,
    report: &mut SubmitReport,
) -> (r: Result<(), StackError>)
    ensures
        exists|talk: SubmitTalk|
            #[trigger] submits(talk, old(file)@, *args, now@, final(file)@, r, final(report)@)
                && final(git).history() == old(git).history() + talk.git()
                && final(gh).history() == old(gh).history() + talk.hub(),
{
    let ghost before = file@;
    *report = SubmitReport::default();
    let name = match &args.pool {
        Some(n) => Some(n.as_str()),
        None => None,
    };
    assert(text::opt_str_view(name) == text::opt_view(args.pool));
    let index = match resolve_pool_index(file, name) {
        Err(e) => {
            let ghost talk = SubmitTalk { refresh: None, pool: None };
            assert(git.history() =~= old(git).history() + talk.git());
            assert(gh.history() =~= old(gh).history() + talk.hub());
            assert(submits(talk, before, *args, now@, file@, Err(e), report@));
            return Err(e);
        },
        Ok(index) => index,
    };
    let ghost mut refreshed: Option<Seq<refresh::BranchTalk>> = None;
    let ghost h = gh.history();
    let ghost mut mid = before.pools[index as int];
    assert(before.pools =~= before.pools.update(index as int, mid));
    if !args.no_refresh {
        let outcome = refresh::refresh_pool(gh, file, index, now);
        let ghost t = choose|t: Seq<refresh::BranchTalk>|
            #[trigger] refresh::refreshes(t, before, index as int, now@, file@, outcome)
                && gh.history() == h + refresh::all_events(t);
        proof {
            refreshed = Some(t);
            mid = refresh::refreshed_pool(t, before.pools[index as int], now@);
        }
        match outcome {
            Err(e) => {
                let ghost talk = SubmitTalk { refresh: refreshed, pool: None };
                assert(git.history() =~= old(git).history() + talk.git());
                assert(gh.history() =~= old(gh).history() + talk.hub());
                assert(submits(talk, before, *args, now@, file@, Err(e), report@));
                return Err(e);
            },
            Ok(found) => {
                assert(text::views(found.newly_merged_branches@).len()
                    == found.newly_merged_branches@.len());
                report.newly_merged = found.newly_merged_branches.len();
            },
        }
    }
    assert(file@.pools == before.pools.update(index as int, mid));
    let ghost pools = pool_views(file.pools@);
    assert(pools.len() == file.pools@.len());
    assert(pools[index as int] == file.pools@[index as int]@);
    assert(pools[index as int] == mid);
    let (outcome, Ghost(p)) = submit_pool(
        git,
        gh,
        &mut file.pools[index],
        args.remote.as_str(),
        args.draft,
        now,
        report,
    );
    let ghost talk = SubmitTalk { refresh: refreshed, pool: Some(p) };
    assert(pool_views(file.pools@) =~= pools.update(index as int, p.result(mid, now@)));
    assert(pool_views(file.pools@) =~= before.pools.update(index as int, p.result(mid, now@)));
    assert(git.history() =~= old(git).history() + talk.git());
    assert(gh.history() =~= old(gh).history() + talk.hub());
    assert(submits(talk, before, *args, now@, file@, outcome, report@));
    outcome
}

/// The branch that a pool branch goes into: the one it names, or else the pool's
/// trunk.
pub open spec fn goes_into(pool: PoolView, b: PoolBranchView, base: Seq<char>) -> bool {
    if b.base_branch.len() > 0 {
        base == b.base_branch
    } else {
        base == pool.trunk.branch
    }
}

/// Whether a plan item says what git and the record say of the branch at `i`:
/// merged branches are skipped, those with a pull request are brought up to date
/// under its number, and of the others those get one against their own base that
/// git gave commits for.
pub open spec fn item_told(
    pool: PoolView,
    item: ItemView,
    i: int,
    events: Seq<GitEvent>,
) -> bool {
    let b = pool.branches[i];
    &&& item.branch_index == i
    &&& item.branch == b.branch
    &&& match b.pull_request {
        Some(p) => if p.merged {
            item.action is SkipMerged
        } else {
            item.action == (ActionView::RefreshExisting { number: p.number })
        },
        None => match item.action {
            ActionView::Create { base } => goes_into(pool, b, base) && asked_commits(
                events,
                base,
                b.branch,
                true,
            ),
            ActionView::SkipEmpty => exists|base: Seq<char>|
                #[trigger] asked_commits(events, base, b.branch, false) && goes_into(pool, b, base),
            _ => false,
        },
    }
}

proof fn lemma_told_more(
    pool: PoolView,
    item: ItemView,
    i: int,
    events: Seq<GitEvent>,
    e: GitEvent,
)
    requires
        item_told(pool, item, i, events),
    ensures
        item_told(pool, item, i, events.push(e)),
{
    let b = pool.branches[i];
    if b.pull_request is None {
        match item.action {
            ActionView::Create { base } => {
                lemma_asked_more(events, e, base, b.branch, true);
            },
            ActionView::SkipEmpty => {
                let base = choose|base: Seq<char>|
                    #[trigger] asked_commits(events, base, b.branch, false) && goes_into(
                        pool,
                        b,
                        base,
                    );
                lemma_asked_more(events, e, base, b.branch, false);
            },
            _ => {},
        }
    }
}

proof fn lemma_settled_told(pool: PoolView, items: Seq<ItemView>, events: Seq<GitEvent>)
    requires
        items.len() <= pool.branches.len(),
        forall|i: int|
            0 <= i < items.len() ==> item_told(pool, #[trigger] items[i], i, events),
    ensures
        settled(pool, items).len() <= pool.branches.len(),
        settled(pool, items).len() < pool.branches.len() ==> pool.branches[settled(
            pool,
            items,
        ).len() as int].pull_request is None,
        forall|i: int|
            0 <= i < settled(pool, items).len() ==> item_told(
                pool,
                #[trigger] settled(pool, items)[i],
                i,
                events,
            ),
    decreases pool.branches.len() - items.len(),
{
    if items.len() < pool.branches.len() {
        let b = pool.branches[items.len() as int];
        if let Some(action) = quick_action(b) {
            let item = ItemView { branch_index: items.len() as int, branch: b.branch, action };
            assert forall|i: int| 0 <= i < items.push(item).len() implies item_told(
                pool,
                #[trigger] items.push(item)[i],
                i,
                events,
            ) by {
                if i < items.len() {
                    assert(items.push(item)[i] == items[i]);
                }
            }
            lemma_settled_told(pool, items.push(item), events);
        }
    }
}

/// A plan says of every branch what git and the record say of it, and planning
/// only asks for commits.
#[verifier::rlimit(40)]
pub proof fn law_plan_is_told(pool: PoolView, events: Seq<GitEvent>)
    requires
        Planning::start(pool).follows(events),
    ensures
        ({
            let p = Planning::start(pool).after(events);
            &&& p.pool == pool
            &&& p.items.len() <= pool.branches.len()
            &&& p.items.len() < pool.branches.len()
                ==> pool.branches[p.items.len() as int].pull_request is None
            &&& forall|i: int|
                0 <= i < p.items.len() ==> item_told(pool, #[trigger] p.items[i], i, events)
            &&& p.failed matches Some(f) ==> events.len() > 0 && (
            events.last() matches GitEvent::Commits { reply: Err(e), .. } && e@ == f)
        }),
        forall|i: int| 0 <= i < events.len() ==> #[trigger] events[i] is Commits,
    decreases events.len(),
{
    if events.len() == 0 {
        lemma_settled_told(pool, Seq::empty(), events);
    } else {
        let rest = events.drop_last();
        law_plan_is_told(pool, rest);
        let mid = Planning::start(pool).after(rest);
        let e = events.last();
        assert(rest.push(e) =~= events);
        assert forall|i: int| 0 <= i < events.len() implies #[trigger] events[i] is Commits by {
            if i < rest.len() {
                assert(events[i] == rest[i]);
            }
        }
        assert forall|i: int| 0 <= i < mid.items.len() implies item_told(
            pool,
            #[trigger] mid.items[i],
            i,
            events,
        ) by {
            lemma_told_more(pool, mid.items[i], i, rest, e);
        }
        if let GitEvent::Commits { base, branch, reply: Ok(commits) } = e {
            assert(events[events.len() - 1] == e);
            assert(asked_commits(events, base, branch, commits@.len() > 0));
            let more = Planning::start(pool).after(events);
            let b = mid.subject();
            let item = ItemView {
                branch_index: mid.items.len() as int,
                branch: b.branch,
                action: if commits@.len() == 0 {
                    ActionView::SkipEmpty
                } else {
                    ActionView::Create { base: mid.base() }
                },
            };
            assert(item_told(pool, item, mid.items.len() as int, events));
            let items = mid.items.push(item);
            assert forall|i: int| 0 <= i < items.len() implies item_told(
                pool,
                #[trigger] items[i],
                i,
                events,
            ) by {
                if i < mid.items.len() {
                    assert(items[i] == mid.items[i]);
                }
            }
            lemma_settled_told(pool, items, events);
        }
    }
}

/// Carrying out an item opens a pull request for its branch alone, as a draft
/// exactly where that is asked for, against the base in the plan, in the words of
/// the commits that git gave for it over that base. It is recorded with nothing
/// unread. A pull request that is there is looked up by its number, and what was
/// seen of it stays.
pub proof fn law_item_opens_as_asked(
    talk: ItemTalk,
    item: ItemView,
    draft: bool,
    b: PoolBranchView,
)
    requires
        talk.complete(item, draft),
        item.action is RefreshExisting ==> b.pull_request is Some,
    ensures
        ({
            let is = item_result(talk, item, b);
            &&& forall|k: int|
                0 <= k < talk.hub.len() ==> match #[trigger] talk.hub[k] {
                    HubEvent::Create { call, reply } => {
                        &&& call.draft == draft
                        &&& call.head == item.branch
                        &&& item.action == (ActionView::Create { base: call.base })
                        &&& talk.git.len() == 1
                        &&& talk.git[0] matches GitEvent::Commits { base, branch, reply: Ok(commits) }
                            && base == call.base && branch == call.head && stack_submit::worded(
                            call,
                            commit_views(commits@),
                        )
                        &&& match reply {
                            Ok(info) => refresh::recorded_as(is, info@, info.comment_count),
                            Err(_) => is == b,
                        }
                    },
                    HubEvent::View { number, reply } => {
                        &&& item.action == (ActionView::RefreshExisting { number })
                        &&& match reply {
                            Ok(info) => refresh::recorded_as(
                                is,
                                info@,
                                b.pull_request->0.seen_comment_count,
                            ),
                            Err(_) => is == b,
                        }
                    },
                    _ => false,
                }
            &&& is.branch == b.branch && is.head == b.head && is.base == b.base && is.base_branch
                == b.base_branch
            &&& talk.hub.len() == 0 ==> is == b
            &&& item.action is Create && talk.failed(item) is None ==> is.pull_request is Some
            &&& forall|k: int| 0 <= k < talk.git.len() ==> #[trigger] talk.git[k] is Commits
        }),
{
    if item.action is Create && talk.hub.len() > 0 {
        assert(talk.hub[0] is Create);
    }
}

/// What a submission does on GitHub: every pull request that it opens is a draft
/// exactly where drafts are asked for, is for a branch of the pool that git
/// pushed to the remote asked for, and goes into that branch's own base. It is
/// recorded for that branch, with nothing unread. Nothing is pushed anywhere else.
#[verifier::rlimit(40)]
pub proof fn law_submit_opens_as_asked(
    talk: SubmitTalk,
    before: PoolFileView,
    index: int,
    args: SubmitArgs,
    now: Seq<char>,
    after: PoolFileView,
    r: Result<(), StackError>,
    report: ReportView,
)
    requires
        submits_pool(talk, before, index, args, now, after, r, report),
        0 <= index < before.pools.len(),
    ensures
        forall|i: int|
            0 <= i < talk.hub().len() ==> (
            #[trigger] talk.hub()[i] matches HubEvent::Create { call, reply } ==> {
                &&& call.draft == args.draft
                &&& stack_submit::pushed_to(talk.git(), args.remote@, call.head)
                &&& exists|j: int|
                    {
                        let b = #[trigger] after.pools[index].branches[j];
                        &&& 0 <= j < after.pools[index].branches.len()
                        &&& b.branch == call.head
                        &&& goes_into(after.pools[index], b, call.base)
                        &&& reply matches Ok(info) ==> refresh::recorded_as(
                            b,
                            info@,
                            info.comment_count,
                        )
                    }
            }),
        forall|i: int|
            0 <= i < talk.git().len() ==> (
            #[trigger] talk.git()[i] matches GitEvent::Push { remote, .. } ==> remote
                == args.remote@),
        report.pushed matches Some(n) ==> (n > 0 ==> exists|i: int|
            0 <= i < talk.git().len() && (
            #[trigger] talk.git()[i] matches GitEvent::Push { branches, reply: Ok(_), .. }
                && branches.len() == n)),
{
    let pool = before.pools[index];
    let mid = match talk.refresh {
        Some(t) => refresh::refreshed_pool(t, pool, now),
        None => pool,
    };
    let asked: nat = match talk.refresh {
        Some(t) => refresh::all_events(t).len(),
        None => 0,
    };
    let hub = talk.hub();
    let git = talk.git();
    assert forall|i: int| 0 <= i < asked implies !(#[trigger] hub[i] is Create) by {
        let t = talk.refresh->0;
        refresh::lemma_all_only_look(t, pool.branches, i);
        assert(hub[i] == refresh::all_events(t)[i]);
    }
    if let Some(s) = talk.pool {
        let plan = s.plan(mid);
        law_plan_is_told(mid, s.planning);
        stack_submit::lemma_acted_names(plan.items);
        let names = stack_submit::acted_names(plan.items);
        if s.push.len() > 0 {
            assert(git[s.planning.len() as int] == s.push[0]);
        }
        assert forall|i: int| 0 <= i < hub.len() implies (
        #[trigger] hub[i] matches HubEvent::Create { call, reply } ==> {
            &&& call.draft == args.draft
            &&& stack_submit::pushed_to(talk.git(), args.remote@, call.head)
            &&& exists|j: int|
                {
                    let b = #[trigger] after.pools[index].branches[j];
                    &&& 0 <= j < after.pools[index].branches.len()
                    &&& b.branch == call.head
                    &&& goes_into(after.pools[index], b, call.base)
                    &&& reply matches Ok(info) ==> refresh::recorded_as(
                        b,
                        info@,
                        info.comment_count,
                    )
                }
        }) by {
            if hub[i] is Create {
                assert(hub[i] == stack_submit::hub_events(s.items)[i - asked]);
                let (j, k) = stack_submit::lemma_hub_event(s.items, i - asked);
                let item = plan.items[j];
                let t = s.items[j];
                assert(t.complete(item, args.draft));
                assert(item_told(mid, item, j, s.planning));
                let b = mid.branches[j];
                law_item_opens_as_asked(t, item, args.draft, b);
                assert(t.hub[k] == hub[i]);
                assert(names.contains(item.branch));
                assert(after.pools[index].branches[j] == item_result(t, item, b));
            }
        }
        assert forall|i: int| 0 <= i < git.len() implies (
        #[trigger] git[i] matches GitEvent::Push { remote, .. } ==> remote == args.remote@) by {
            let p = s.planning.len();
            if i < p {
                assert(git[i] == s.planning[i]);
            } else if i < p + s.push.len() {
                assert(git[i] == s.push[i - p]);
            } else {
                assert(git[i] == stack_submit::git_events(s.items)[i - p - s.push.len()]);
                let (j, k) = stack_submit::lemma_git_event(s.items, i - p - s.push.len());
                assert(s.items[j].complete(plan.items[j], args.draft));
            }
        }
    }
}

/// After a submission that went through, every branch of the pool has a pull
/// request, unless git gave no commits for it over its base, and the report says
/// of every branch what was done. The time is recorded; where it failed and no
/// refresh was made the time is as it was. No other pool changes.
#[verifier::rlimit(40)]
pub proof fn law_submitted_is_proposed(
    talk: SubmitTalk,
    before: PoolFileView,
    index: int,
    args: SubmitArgs,
    now: Seq<char>,
    after: PoolFileView,
    r: Result<(), StackError>,
    report: ReportView,
)
    requires
        submits_pool(talk, before, index, args, now, after, r, report),
        0 <= index < before.pools.len(),
    ensures
        after.pools.len() == before.pools.len(),
        after.pools[index].branches.len() == before.pools[index].branches.len(),
        after.pools[index].trunk == before.pools[index].trunk,
        after.pools[index].name == before.pools[index].name,
        r is Ok ==> after.pools[index].last_refreshed_at == Some(now),
        r is Ok ==> report.pushed is Some && report.done.len()
            == before.pools[index].branches.len() && forall|j: int|
            0 <= j < report.done.len() ==> (#[trigger] report.done[j]).branch
                == before.pools[index].branches[j].branch && report.done[j].branch_index == j,
        r is Err && args.no_refresh ==> after.pools[index].last_refreshed_at
            == before.pools[index].last_refreshed_at,
        r is Ok ==> forall|j: int|
            0 <= j < before.pools[index].branches.len() ==> {
                let is = #[trigger] after.pools[index].branches[j];
                &&& is.branch == before.pools[index].branches[j].branch
                &&& is.pull_request is Some || exists|base: Seq<char>|
                    #[trigger] asked_commits(talk.git(), base, is.branch, false) && goes_into(
                        after.pools[index],
                        is,
                        base,
                    )
            },
        forall|p: int|
            0 <= p < before.pools.len() && p != index ==> #[trigger] after.pools[p]
                == before.pools[p],
{
    let pool = before.pools[index];
    let mid = match talk.refresh {
        Some(t) => refresh::refreshed_pool(t, pool, now),
        None => pool,
    };
    if r is Ok {
        let s = talk.pool->0;
        let plan = s.plan(mid);
        law_plan_is_told(mid, s.planning);
        assert forall|j: int| 0 <= j < report.done.len() implies (
        #[trigger] report.done[j]).branch == pool.branches[j].branch && report.done[j].branch_index
            == j by {
            assert(report.done[j] == plan.items[j]);
            assert(item_told(mid, plan.items[j], j, s.planning));
        }
        assert forall|j: int| 0 <= j < pool.branches.len() implies ({
            let is = #[trigger] after.pools[index].branches[j];
            &&& is.branch == pool.branches[j].branch
            &&& is.pull_request is Some || exists|base: Seq<char>|
                #[trigger] asked_commits(talk.git(), base, is.branch, false) && goes_into(
                    after.pools[index],
                    is,
                    base,
                )
        }) by {
            let item = plan.items[j];
            let b = mid.branches[j];
            assert(item_told(mid, item, j, s.planning));
            assert(s.items[j].complete(item, args.draft));
            if j == s.items.len() - 1 {
                assert(s.items[j] == s.items.last());
            }
            assert(s.items[j].failed(item) is None);
            law_item_opens_as_asked(s.items[j], item, args.draft, b);
            assert(after.pools[index].branches[j] == item_result(s.items[j], item, b));
            if b.pull_request is None && item.action is SkipEmpty {
                let base = choose|base: Seq<char>|
                    #[trigger] asked_commits(s.planning, base, b.branch, false) && goes_into(
                        mid,
                        b,
                        base,
                    );
                let k = choose|k: int|
                    0 <= k < s.planning.len() && (
                    #[trigger] s.planning[k] matches GitEvent::Commits {
                        base: x,
                        branch: n,
                        reply: Ok(commits),
                    } && x == base && n == b.branch && (commits@.len() > 0) == false);
                assert(talk.git()[k] == s.planning[k]);
                assert(asked_commits(talk.git(), base, b.branch, false));
            }
            if b.pull_request is Some && item.action is RefreshExisting {
                assert(s.items[j].hub[0] is View);
            }
        }
    }
}

/// The branches that are pushed are those of the pool that are not merged and
/// that have a pull request or have commits, and all of them.
pub proof fn law_push_takes_what_is_proposed(
    s: PoolSubmission,
    before: PoolView,
    remote: Seq<char>,
    draft: bool,
    j: int,
)
    requires
        s.complete(before, remote, draft),
        0 <= j < before.branches.len(),
        s.push.len() > 0,
    ensures
        s.push[0] matches GitEvent::Push { remote: to, branches, .. } && {
            &&& to == remote
            &&& branches.contains(before.branches[j].branch) || match before.branches[j].pull_request {
                Some(p) => p.merged,
                None => exists|base: Seq<char>|
                    #[trigger] asked_commits(s.planning, base, before.branches[j].branch, false),
            }
            &&& forall|k: int|
                0 <= k < branches.len() ==> exists|i: int|
                    0 <= i < before.branches.len() && (#[trigger] before.branches[i]).branch
                        == #[trigger] branches[k] && !(
                    before.branches[i].pull_request matches Some(p) && p.merged)
        },
{
    let plan = s.plan(before);
    law_plan_is_told(before, s.planning);
    stack_submit::lemma_acted_names(plan.items);
    let item = plan.items[j];
    assert(item_told(before, item, j, s.planning));
    let names = stack_submit::acted_names(plan.items);
    assert forall|k: int| 0 <= k < names.len() implies exists|i: int|
        0 <= i < before.branches.len() && (#[trigger] before.branches[i]).branch
            == #[trigger] names[k] && !(before.branches[i].pull_request matches Some(p)
            && p.merged) by {
        assert(stack_submit::acted_on(plan.items, names[k]));
        let i = choose|i: int|
            0 <= i < plan.items.len() && (#[trigger] plan.items[i]).branch == names[k] && (
            plan.items[i].action is Create || plan.items[i].action is RefreshExisting);
        assert(item_told(before, plan.items[i], i, s.planning));
        assert(before.branches[i].branch == names[k]);
    }
}

/// Whether GitHub was asked for the pull request of a branch: by number where one
/// is recorded, else by name.
pub open spec fn asked_about(hub: Seq<HubEvent>, b: PoolBranchView) -> bool {
    exists|i: int|
        0 <= i < hub.len() && match b.pull_request {
            Some(p) => #[trigger] hub[i] matches HubEvent::View { number, .. } && number
                == p.number,
            None => hub[i] matches HubEvent::FindByHead { branch, .. } && branch == b.branch,
        }
}

/// A submission works on the pool that is meant and on no other. It looks every
/// branch of it up first, unless that was declined; then it looks none up by name.
pub proof fn law_submit_goes_by_args(
    talk: SubmitTalk,
    before: PoolFileView,
    args: SubmitArgs,
    now: Seq<char>,
    after: PoolFileView,
    r: Result<(), StackError>,
    report: ReportView,
    p: int,
)
    requires
        submits(talk, before, args, now, after, r, report),
        0 <= p < before.pools.len(),
    ensures
        args.pool matches Some(name) ==> before.pools[p].name != Some(name@) ==> after.pools[p]
            == before.pools[p],
        args.pool is None && before.pools.len() > 1 && before.pools[p].name is Some
            ==> after.pools[p] == before.pools[p],
        args.no_refresh ==> forall|i: int|
            0 <= i < talk.hub().len() ==> !(#[trigger] talk.hub()[i] is FindByHead),
        !args.no_refresh && r is Ok && after.pools[p] != before.pools[p] ==> forall|j: int|
            0 <= j < before.pools[p].branches.len() ==> asked_about(
                talk.hub(),
                #[trigger] before.pools[p].branches[j],
            ),
{
    let hub = talk.hub();
    law_choice_goes_by_name(before, text::opt_view(args.pool));
    if let Ok(index) = chosen_pool(before, text::opt_view(args.pool)) {
        let pool = before.pools[index];
        let mid = match talk.refresh {
            Some(t) => refresh::refreshed_pool(t, pool, now),
            None => pool,
        };
        if args.no_refresh {
            if let Some(s) = talk.pool {
                let plan = s.plan(mid);
                assert forall|i: int| 0 <= i < hub.len() implies !(
                #[trigger] hub[i] is FindByHead) by {
                    assert(hub[i] == stack_submit::hub_events(s.items)[i]);
                    let (j, k) = stack_submit::lemma_hub_event(s.items, i);
                    assert(s.items[j].complete(plan.items[j], args.draft));
                }
            }
        } else if r is Ok && p == index {
            let t = talk.refresh->0;
            assert forall|j: int| 0 <= j < pool.branches.len() implies asked_about(
                hub,
                #[trigger] pool.branches[j],
            ) by {
                assert(t[j].complete(pool.branches[j]));
                assert(t[j].events()[0] == t[j].lookup);
                let l = refresh::lemma_event_in(t, j, 0);
                assert(hub[l] == t[j].lookup);
            }
        }
    }
}

} // verus!
