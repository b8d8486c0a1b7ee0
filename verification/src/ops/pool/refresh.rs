//! Refresh the pull-request state of a pool: discover pull requests by head
//! ref, update merged flags, comment counts and merge checks, follow merged
//! bases, and report what moved.

use vstd::prelude::*;

use crate::domain::error::{Fault, StackError};
use crate::domain::pool::{
    branch_views, Pool, PoolBranch, PoolBranchView, PoolFile, PoolFileView, PoolPullRequest,
    PoolPullRequestView, PoolView,
};
use crate::github::{GitHub, HubEvent, PrInfoView, PrState};
use crate::seqs;
use crate::style;
use crate::text;

verus! {

#[derive(Debug)]
pub struct RefreshArgs {
    pub pool: Option<String>,
}

/// One thing that a refresh found changed.
#[derive(Debug)]
pub struct PoolRefreshChange {
    pub branch: String,
    pub kind: PoolRefreshKind,
}

#[derive(Debug)]
pub enum PoolRefreshKind {
    /// A pull request was found for a branch that had none.
    PrDiscovered { number: u64 },
    /// The pull request has been merged since.
    Merged { number: u64 },
    /// Comments came in since the last refresh.
    NewComments { number: u64, new: u64, total: u64 },
    /// The merge check came out differently.
    MergeableChanged { number: u64, mergeable: Option<bool> },
    /// The base was merged, or the pull request retargeted: the branch now
    /// sits on another base.
    Reparented { from: String, to: String },
}

#[verifier::ext_equal]
pub enum KindView {
    PrDiscovered { number: u64 },
    Merged { number: u64 },
    NewComments { number: u64, new: u64, total: u64 },
    MergeableChanged { number: u64, mergeable: Option<bool> },
    Reparented { from: Seq<char>, to: Seq<char> },
}

#[verifier::ext_equal]
pub struct ChangeView {
    pub branch: Seq<char>,
    pub kind: KindView,
}

impl View for PoolRefreshKind {
    type V = KindView;

    open spec fn view(&self) -> KindView {
        match *self {
            PoolRefreshKind::PrDiscovered { number } => KindView::PrDiscovered { number },
            PoolRefreshKind::Merged { number } => KindView::Merged { number },
            PoolRefreshKind::NewComments { number, new, total } => KindView::NewComments {
                number,
                new,
                total,
            },
            PoolRefreshKind::MergeableChanged { number, mergeable } => KindView::MergeableChanged {
                number,
                mergeable,
            },
            PoolRefreshKind::Reparented { from, to } => KindView::Reparented {
                from: from@,
                to: to@,
            },
        }
    }
}

impl View for PoolRefreshChange {
    type V = ChangeView;

    open spec fn view(&self) -> ChangeView {
        ChangeView { branch: self.branch@, kind: self.kind@ }
    }
}

/// The models of a list of changes.
pub open spec fn change_views(list: Seq<PoolRefreshChange>) -> Seq<ChangeView> {
    list.map_values(|c: PoolRefreshChange| c@)
}

/// What a refresh found.
#[derive(Debug)]
pub struct PoolRefreshReport {
    pub changes: Vec<PoolRefreshChange>,
    /// Branches whose pull requests have been merged since.
    pub newly_merged_branches: Vec<String>,
}

impl Default for PoolRefreshReport {
    fn default() -> (r: Self)
        ensures
            r.changes@.len() == 0,
            r.newly_merged_branches@.len() == 0,
    {
        PoolRefreshReport { changes: Vec::new(), newly_merged_branches: Vec::new() }
    }
}

/// How many merged bases a refresh looks through.
pub const MAX_HOPS: usize = 5;

/// How far the search for a base that is not merged has come.
#[verifier::ext_equal]
pub struct Walk {
    pub current: Seq<char>,
    /// Bases that may still be looked up.
    pub left: nat,
    pub settled: bool,
    pub failed: Option<Fault>,
}

impl Walk {
    pub open spec fn start(base: Seq<char>, depth: nat) -> Walk {
        Walk { current: base, left: depth, settled: false, failed: None }
    }

    pub open spec fn done(self) -> bool {
        self.settled || self.failed is Some || self.left == 0
    }

    /// Whether this is the question to ask now.
    pub open spec fn asks(self, e: HubEvent) -> bool {
        &&& !self.done()
        &&& e matches HubEvent::FindByHead { branch, .. } && branch == self.current
    }

    /// What is known once it is answered: a base that was merged hands over to
    /// the base it was merged into; anything else is where the walk ends.
    pub open spec fn told(self, e: HubEvent) -> Walk {
        match e {
            HubEvent::FindByHead { reply: Ok(Some(p)), .. } => if p@.state == PrState::Merged
                && p@.base_ref != self.current {
                Walk { current: p@.base_ref, left: (self.left - 1) as nat, ..self }
            } else {
                Walk { settled: true, ..self }
            },
            HubEvent::FindByHead { reply: Ok(None), .. } => Walk { settled: true, ..self },
            HubEvent::FindByHead { reply: Err(e), .. } => Walk { failed: Some(e@), ..self },
            _ => self,
        }
    }

    pub open spec fn after(self, events: Seq<HubEvent>) -> Walk
        decreases events.len(),
    {
        if events.len() == 0 {
            self
        } else {
            self.after(events.drop_last()).told(events.last())
        }
    }

    pub open spec fn follows(self, events: Seq<HubEvent>) -> bool
        decreases events.len(),
    {
        events.len() > 0 ==> self.follows(events.drop_last()) && self.after(
            events.drop_last(),
        ).asks(events.last())
    }

    /// Whether `events` are the whole walk from `base`.
    pub open spec fn complete(base: Seq<char>, depth: nat, events: Seq<HubEvent>) -> bool {
        &&& Walk::start(base, depth).follows(events)
        &&& Walk::start(base, depth).after(events).done()
    }

    /// Where the walk from `base` ended.
    pub open spec fn end(base: Seq<char>, depth: nat, events: Seq<HubEvent>) -> Result<
        Seq<char>,
        Fault,
    > {
        let w = Walk::start(base, depth).after(events);
        match w.failed {
            Some(f) => Err(f),
            None => Ok(w.current),
        }
    }
}

/// Walk up the base chain on GitHub, past branches whose pull requests are
/// merged, at most `max_depth` of them. Returns the first base that is not
/// merged, or where the walk came to.
fn resolve_effective_base<H: GitHub>(gh: &mut H, base_ref: &str, max_depth: usize) -> (r: (
    Result<String, StackError>,
    Ghost<Seq<HubEvent>>,
))
    ensures
        final(gh).history() == old(gh).history() + r.1@,
        Walk::complete(base_ref@, max_depth as nat, r.1@),
        match Walk::end(base_ref@, max_depth as nat, r.1@) {
            Ok(base) => r.0 matches Ok(s) && s@ == base,
            Err(f) => r.0 matches Err(e) && e@ == f,
        },
{
    let ghost start = Walk::start(base_ref@, max_depth as nat);
    let ghost mut events: Seq<HubEvent> = Seq::empty();
    let mut current = base_ref.to_string();
    let mut left: usize = max_depth;
    assert(gh.history() =~= old(gh).history() + events);
    while left > 0
        invariant
            start == Walk::start(base_ref@, max_depth as nat),
            gh.history() == old(gh).history() + events,
            start.follows(events),
            start.after(events) == (Walk {
                current: current@,
                left: left as nat,
                settled: false,
                failed: None,
            }),
        decreases left,
    {
        let reply = gh.find_pr_by_head(current.as_str());
        let ghost e = HubEvent::FindByHead { branch: current@, reply };
        proof {
            assert(events.push(e).drop_last() =~= events);
            assert(gh.history() =~= old(gh).history() + events.push(e));
            events = events.push(e);
        }
        match reply {
            Err(err) => {
                return (Err(err), Ghost(events));
            },
            Ok(None) => {
                return (Ok(current), Ghost(events));
            },
            Ok(Some(p)) => {
                if p.state == PrState::Merged && p.base_ref != current {
                    current = p.base_ref;
                    left = left - 1;
                } else {
                    return (Ok(current), Ghost(events));
                }
            },
        }
    }
    (Ok(current), Ghost(events))
}

/// What was asked and answered for one branch: its pull request, then the
/// walk to a base that is not merged.
pub struct BranchTalk {
    pub lookup: HubEvent,
    pub walk: Seq<HubEvent>,
}

/// What a lookup of a pull request came to.
pub open spec fn lookup_answer(e: HubEvent) -> Result<Option<PrInfoView>, Fault> {
    match e {
        HubEvent::View { reply: Ok(info), .. } => Ok(Some(info@)),
        HubEvent::View { reply: Err(e), .. } => Err(e@),
        HubEvent::FindByHead { reply: Ok(Some(info)), .. } => Ok(Some(info@)),
        HubEvent::FindByHead { reply: Err(e), .. } => Err(e@),
        _ => Ok(None),
    }
}

/// What a pull request's record becomes: all as GitHub has it, but for what
/// the user has seen.
pub open spec fn updated_pr(b: PoolBranchView, info: PrInfoView) -> PoolPullRequestView {
    PoolPullRequestView {
        number: info.number,
        id: info.id,
        url: info.url,
        merged: info.state == PrState::Merged,
        comment_count: info.comment_count,
        seen_comment_count: match b.pull_request {
            Some(p) => p.seen_comment_count,
            None => 0,
        },
        mergeable: info.mergeable,
    }
}

/// Whether the pull request of a branch has been merged since.
pub open spec fn now_merged(b: PoolBranchView, info: PrInfoView) -> bool {
    !b.is_merged() && info.state == PrState::Merged
}

/// What is reported of a branch whose pull request was looked up.
pub open spec fn pr_changes(b: PoolBranchView, info: PrInfoView) -> Seq<ChangeView> {
    let prev_count = match b.pull_request {
        Some(p) => p.comment_count,
        None => 0,
    };
    let prev_mergeable = match b.pull_request {
        Some(p) => p.mergeable,
        None => None,
    };
    let discovered = if b.pull_request is None {
        seq![
            ChangeView {
                branch: b.branch,
                kind: KindView::PrDiscovered { number: info.number },
            },
        ]
    } else {
        Seq::empty()
    };
    let merged = if now_merged(b, info) {
        seq![ChangeView { branch: b.branch, kind: KindView::Merged { number: info.number } }]
    } else {
        Seq::empty()
    };
    let comments = if info.comment_count > prev_count {
        seq![
            ChangeView {
                branch: b.branch,
                kind: KindView::NewComments {
                    number: info.number,
                    new: (info.comment_count - prev_count) as u64,
                    total: info.comment_count,
                },
            },
        ]
    } else {
        Seq::empty()
    };
    let mergeable = if info.mergeable != prev_mergeable {
        seq![
            ChangeView {
                branch: b.branch,
                kind: KindView::MergeableChanged {
                    number: info.number,
                    mergeable: info.mergeable,
                },
            },
        ]
    } else {
        Seq::empty()
    };
    discovered + merged + comments + mergeable
}

/// What is reported of a branch that comes to sit on `base`: nothing where it
/// named no base of its own before.
pub open spec fn base_changes(b: PoolBranchView, base: Seq<char>) -> Seq<ChangeView> {
    if b.base_branch.len() > 0 && b.base_branch != base {
        seq![
            ChangeView {
                branch: b.branch,
                kind: KindView::Reparented { from: b.base_branch, to: base },
            },
        ]
    } else {
        Seq::empty()
    }
}

impl BranchTalk {
    pub open spec fn events(self) -> Seq<HubEvent> {
        seq![self.lookup] + self.walk
    }

    /// Whether the pull request was looked up as it should be: by its number
    /// where one is recorded, else by the branch's name.
    pub open spec fn asks(self, b: PoolBranchView) -> bool {
        match b.pull_request {
            Some(p) => self.lookup matches HubEvent::View { number, .. } && number == p.number,
            None => self.lookup matches HubEvent::FindByHead { branch, .. } && branch == b.branch,
        }
    }

    /// Where the walk to a base starts: at the base of the pull request, or at
    /// the recorded one where there is no pull request. There is none to walk
    /// from where neither is known.
    pub open spec fn walk_from(self, b: PoolBranchView) -> Option<Seq<char>> {
        match lookup_answer(self.lookup) {
            Ok(Some(info)) => Some(info.base_ref),
            Ok(None) => if b.base_branch.len() > 0 {
                Some(b.base_branch)
            } else {
                None
            },
            Err(_) => None,
        }
    }

    /// Whether this is a complete refresh of the branch.
    pub open spec fn complete(self, b: PoolBranchView) -> bool {
        &&& self.asks(b)
        &&& match self.walk_from(b) {
            Some(base) => Walk::complete(base, MAX_HOPS as nat, self.walk),
            None => self.walk.len() == 0,
        }
    }

    /// Why the refresh of the branch failed.
    pub open spec fn failed(self, b: PoolBranchView) -> Option<Fault> {
        match lookup_answer(self.lookup) {
            Err(f) => Some(f),
            Ok(_) => match self.walk_from(b) {
                Some(base) => match Walk::end(base, MAX_HOPS as nat, self.walk) {
                    Err(f) => Some(f),
                    Ok(_) => None,
                },
                None => None,
            },
        }
    }

    /// The base that the branch comes to sit on.
    pub open spec fn base(self, b: PoolBranchView) -> Seq<char> {
        match self.walk_from(b) {
            Some(base) => Walk::end(base, MAX_HOPS as nat, self.walk)->Ok_0,
            None => b.base_branch,
        }
    }

    /// The branch afterwards. One whose refresh failed is as it was.
    pub open spec fn result(self, b: PoolBranchView) -> PoolBranchView {
        if self.failed(b) is Some {
            b
        } else {
            PoolBranchView {
                base_branch: self.base(b),
                pull_request: match lookup_answer(self.lookup) {
                    Ok(Some(info)) => Some(updated_pr(b, info)),
                    _ => b.pull_request,
                },
                ..b
            }
        }
    }

    /// What is reported of the branch.
    pub open spec fn changes(self, b: PoolBranchView) -> Seq<ChangeView> {
        match lookup_answer(self.lookup) {
            Ok(Some(info)) => pr_changes(b, info) + base_changes(b, self.base(b)),
            _ => base_changes(b, self.base(b)),
        }
    }

    /// The branch's name, where its pull request has been merged since.
    pub open spec fn merged(self, b: PoolBranchView) -> Seq<Seq<char>> {
        match lookup_answer(self.lookup) {
            Ok(Some(info)) => if now_merged(b, info) {
                seq![b.branch]
            } else {
                Seq::empty()
            },
            _ => Seq::empty(),
        }
    }
}

fn note(report: &mut PoolRefreshReport, branch: &str, kind: PoolRefreshKind)
    ensures
        change_views(final(report).changes@) == change_views(old(report).changes@).push(
            (ChangeView { branch: branch@, kind: kind@ }),
        ),
        final(report).newly_merged_branches == old(report).newly_merged_branches,
{
    let ghost before = change_views(report.changes@);
    let ghost model = kind@;
    report.changes.push(PoolRefreshChange { branch: branch.to_string(), kind });
    assert(change_views(report.changes@) =~= before.push(
        ChangeView { branch: branch@, kind: model },
    ));
}

fn note_pr(report: &mut PoolRefreshReport, b: &PoolBranch, info: &crate::github::PullRequestInfo)
    ensures
        change_views(final(report).changes@) == change_views(old(report).changes@) + pr_changes(
            b@,
            info@,
        ),
        text::views(final(report).newly_merged_branches@) == text::views(
            old(report).newly_merged_branches@,
        ) + (if now_merged(b@, info@) {
            seq![b@.branch]
        } else {
            Seq::empty()
        }),
{
    let ghost before = change_views(report.changes@);
    let ghost names = text::views(report.newly_merged_branches@);
    let (was_merged, prev_count, prev_mergeable) = match &b.pull_request {
        Some(p) => (p.merged, p.comment_count, p.mergeable),
        None => (false, 0u64, None),
    };
    if b.pull_request.is_none() {
        note(
            report,
            b.branch.as_str(),
            PoolRefreshKind::PrDiscovered { number: info.number },
        );
    }
    if !was_merged && info.state == PrState::Merged {
        note(report, b.branch.as_str(), PoolRefreshKind::Merged { number: info.number });
        report.newly_merged_branches.push(b.branch.clone());
        assert(text::views(report.newly_merged_branches@) =~= names.push(b.branch@));
    } else {
        assert(names =~= names + Seq::<Seq<char>>::empty());
    }
    if info.comment_count > prev_count {
        note(
            report,
            b.branch.as_str(),
            PoolRefreshKind::NewComments {
                number: info.number,
                new: info.comment_count - prev_count,
                total: info.comment_count,
            },
        );
    }
    if info.mergeable != prev_mergeable {
        note(
            report,
            b.branch.as_str(),
            PoolRefreshKind::MergeableChanged { number: info.number, mergeable: info.mergeable },
        );
    }
    assert(change_views(report.changes@) =~= before + pr_changes(b@, info@));
}

fn refresh_branch<H: GitHub>(
    gh: &mut H,
    b: &mut PoolBranch,
    report: &mut PoolRefreshReport,
) -> (r: (Result<(), StackError>, Ghost<BranchTalk>))
    ensures
        final(gh).history() == old(gh).history() + r.1@.events(),
        r.1@.complete(old(b)@),
        final(b)@ == r.1@.result(old(b)@),
        match r.1@.failed(old(b)@) {
            Some(f) => r.0 matches Err(e) && e@ == f,
            None => {
                &&& r.0 is Ok
                &&& change_views(final(report).changes@) == change_views(old(report).changes@)
                    + r.1@.changes(old(b)@)
                &&& text::views(final(report).newly_merged_branches@) == text::views(
                    old(report).newly_merged_branches@,
                ) + r.1@.merged(old(b)@)
            },
        },
{
    let ghost before = b@;
    let ghost changes = change_views(report.changes@);
    let ghost names = text::views(report.newly_merged_branches@);
    let ghost mut lookup: HubEvent = arbitrary();
    let found = match &b.pull_request {
        Some(p) => {
            let reply = gh.view_pr(p.number);
            proof {
                lookup = HubEvent::View { number: p.number, reply };
            }
            match reply {
                Ok(info) => Ok(Some(info)),
                Err(e) => Err(e),
            }
        },
        None => {
            let reply = gh.find_pr_by_head(b.branch.as_str());
            proof {
                lookup = HubEvent::FindByHead { branch: b.branch@, reply };
            }
            reply
        },
    };
    let ghost asked = gh.history();
    assert(asked == old(gh).history().push(lookup));
    match found {
        Err(e) => {
            let ghost talk = BranchTalk { lookup, walk: Seq::empty() };
            assert(gh.history() =~= old(gh).history() + talk.events());
            (Err(e), Ghost(talk))
        },
        Ok(None) => {
            if b.base_branch.as_str().is_empty() {
                let ghost talk = BranchTalk { lookup, walk: Seq::empty() };
                assert(gh.history() =~= old(gh).history() + talk.events());
                assert(changes =~= changes + talk.changes(before));
                assert(names =~= names + talk.merged(before));
                return (Ok(()), Ghost(talk));
            }
            let (resolved, Ghost(walk)) = resolve_effective_base(
                gh,
                b.base_branch.as_str(),
                MAX_HOPS,
            );
            let ghost talk = BranchTalk { lookup, walk };
            assert(gh.history() =~= old(gh).history() + talk.events());
            match resolved {
                Err(e) => (Err(e), Ghost(talk)),
                Ok(base) => {
                    if base != b.base_branch {
                        let kind = PoolRefreshKind::Reparented {
                            from: b.base_branch.clone(),
                            to: base.clone(),
                        };
                        note(report, b.branch.as_str(), kind);
                        b.base_branch = base;
                    }
                    assert(change_views(report.changes@) =~= changes + talk.changes(before));
                    assert(names =~= names + talk.merged(before));
                    (Ok(()), Ghost(talk))
                },
            }
        },
        Ok(Some(info)) => {
            let (resolved, Ghost(walk)) = resolve_effective_base(
                gh,
                info.base_ref.as_str(),
                MAX_HOPS,
            );
            let ghost talk = BranchTalk { lookup, walk };
            let ghost model = info@;
            assert(gh.history() =~= old(gh).history() + talk.events());
            match resolved {
                Err(e) => (Err(e), Ghost(talk)),
                Ok(base) => {
                    note_pr(report, b, &info);
                    if !b.base_branch.as_str().is_empty() && b.base_branch != base {
                        let kind = PoolRefreshKind::Reparented {
                            from: b.base_branch.clone(),
                            to: base.clone(),
                        };
                        note(report, b.branch.as_str(), kind);
                    }
                    assert(change_views(report.changes@) =~= changes + talk.changes(before));
                    let seen: u64 = match &b.pull_request {
                        Some(p) => p.seen_comment_count,
                        None => 0,
                    };
                    b.base_branch = base;
                    b.pull_request = Some(
                        PoolPullRequest {
                            number: info.number,
                            id: info.id,
                            url: info.url,
                            merged: info.state == PrState::Merged,
                            comment_count: info.comment_count,
                            seen_comment_count: seen,
                            mergeable: info.mergeable,
                        },
                    );
                    (Ok(()), Ghost(talk))
                },
            }
        },
    }
}

/// What was asked and answered, branch after branch.
pub open spec fn all_events(talks: Seq<BranchTalk>) -> Seq<HubEvent>
    decreases talks.len(),
{
    if talks.len() == 0 {
        Seq::empty()
    } else {
        all_events(talks.drop_last()) + talks.last().events()
    }
}

/// What is reported, branch after branch.
pub open spec fn all_changes(talks: Seq<BranchTalk>, branches: Seq<PoolBranchView>) -> Seq<
    ChangeView,
>
    decreases talks.len(),
{
    if talks.len() == 0 {
        Seq::empty()
    } else {
        all_changes(talks.drop_last(), branches) + talks.last().changes(branches[talks.len() - 1])
    }
}

/// The branches whose pull requests have been merged since.
pub open spec fn all_merged(talks: Seq<BranchTalk>, branches: Seq<PoolBranchView>) -> Seq<
    Seq<char>,
>
    decreases talks.len(),
{
    if talks.len() == 0 {
        Seq::empty()
    } else {
        all_merged(talks.drop_last(), branches) + talks.last().merged(branches[talks.len() - 1])
    }
}

/// Whether `talks` refresh the branches from the first on, each completely,
/// and none after one that failed.
pub open spec fn in_turn(talks: Seq<BranchTalk>, branches: Seq<PoolBranchView>) -> bool {
    &&& talks.len() <= branches.len()
    &&& forall|i: int| 0 <= i < talks.len() ==> (#[trigger] talks[i]).complete(branches[i])
    &&& forall|i: int|
        0 <= i < talks.len() - 1 ==> (#[trigger] talks[i]).failed(branches[i]) is None
}

/// The branches after `talks`: those not reached are as they were.
pub open spec fn all_results(talks: Seq<BranchTalk>, branches: Seq<PoolBranchView>) -> Seq<
    PoolBranchView,
> {
    Seq::new(
        branches.len(),
        |i: int|
            if i < talks.len() {
                talks[i].result(branches[i])
            } else {
                branches[i]
            },
    )
}

/// Why the refresh failed.
pub open spec fn failure(talks: Seq<BranchTalk>, branches: Seq<PoolBranchView>) -> Option<Fault> {
    if talks.len() == 0 {
        None
    } else {
        talks.last().failed(branches[talks.len() - 1])
    }
}

/// Whether `talks` are a whole refresh: of every branch, or up to the first
/// that failed.
pub open spec fn complete(talks: Seq<BranchTalk>, branches: Seq<PoolBranchView>) -> bool {
    &&& in_turn(talks, branches)
    &&& talks.len() < branches.len() ==> failure(talks, branches) is Some
}

/// The pool after `talks`. A refresh that failed leaves the timestamp.
pub open spec fn refreshed_pool(
    talks: Seq<BranchTalk>,
    pool: PoolView,
    now: Seq<char>,
) -> PoolView {
    PoolView {
        branches: all_results(talks, pool.branches),
        last_refreshed_at: if failure(talks, pool.branches) is Some {
            pool.last_refreshed_at
        } else {
            Some(now)
        },
        ..pool
    }
}

/// Whether `talks` are a refresh of the pool at `index` that turns one file
/// into another and returns `r`.
pub open spec fn refreshes(
    talks: Seq<BranchTalk>,
    before: PoolFileView,
    index: int,
    now: Seq<char>,
    after: PoolFileView,
    r: Result<PoolRefreshReport, StackError>,
) -> bool {
    let pool = before.pools[index];
    &&& complete(talks, pool.branches)
    &&& after == (PoolFileView {
        pools: before.pools.update(index, refreshed_pool(talks, pool, now)),
        ..before
    })
    &&& match failure(talks, pool.branches) {
        Some(f) => r matches Err(e) && e@ == f,
        None => {
            &&& r matches Ok(report)
            &&& change_views(report.changes@) == all_changes(talks, pool.branches)
            &&& text::views(report.newly_merged_branches@) == all_merged(talks, pool.branches)
        },
    }
}

fn refresh_branches<H: GitHub>(
    gh: &mut H,
    list: &mut Vec<PoolBranch>,
    report: &mut PoolRefreshReport,
) -> (r: (Result<(), StackError>, Ghost<Seq<BranchTalk>>))
    requires
        old(report).changes@.len() == 0,
        old(report).newly_merged_branches@.len() == 0,
    ensures
        final(gh).history() == old(gh).history() + all_events(r.1@),
        in_turn(r.1@, branch_views(old(list)@)),
        branch_views(final(list)@) == all_results(r.1@, branch_views(old(list)@)),
        match r.0 {
            Ok(()) => {
                &&& r.1@.len() == old(list)@.len()
                &&& r.1@.len() > 0 ==> r.1@.last().failed(
                    branch_views(old(list)@)[r.1@.len() - 1],
                ) is None
                &&& change_views(final(report).changes@) == all_changes(
                    r.1@,
                    branch_views(old(list)@),
                )
                &&& text::views(final(report).newly_merged_branches@) == all_merged(
                    r.1@,
                    branch_views(old(list)@),
                )
            },
            Err(e) => r.1@.len() > 0 && r.1@.last().failed(
                branch_views(old(list)@)[r.1@.len() - 1],
            ) == Some(e@),
        },
{
    let ghost branches = branch_views(list@);
    let ghost mut talks: Seq<BranchTalk> = Seq::empty();
    let n: usize = list.len();
    let mut i: usize = 0;
    assert(gh.history() =~= old(gh).history() + all_events(talks));
    assert(change_views(report.changes@) =~= all_changes(talks, branches));
    assert(text::views(report.newly_merged_branches@) =~= all_merged(talks, branches));
    assert(branches =~= all_results(talks, branches));
    while i < n
        invariant
            i <= n,
            n == branches.len(),
            branches == branch_views(old(list)@),
            talks.len() == i,
            in_turn(talks, branches),
            talks.len() > 0 ==> talks.last().failed(branches[i - 1]) is None,
            branch_views(list@) == all_results(talks, branches),
            change_views(report.changes@) == all_changes(talks, branches),
            text::views(report.newly_merged_branches@) == all_merged(talks, branches),
            gh.history() == old(gh).history() + all_events(talks),
        decreases n - i,
    {
        let ghost mid = list@;
        proof {
            assert(branch_views(mid).len() == n);
            assert(branch_views(mid)[i as int] == mid[i as int]@);
            assert(all_results(talks, branches)[i as int] == branches[i as int]);
        }
        let (outcome, Ghost(talk)) = refresh_branch(gh, &mut list[i], report);
        let ghost more = talks.push(talk);
        proof {
            assert(more.drop_last() =~= talks);
            assert(gh.history() =~= old(gh).history() + all_events(more));
            assert(branch_views(list@) =~= branch_views(mid).update(
                i as int,
                talk.result(branches[i as int]),
            ));
            assert(branch_views(list@) =~= all_results(more, branches));
            assert forall|j: int| 0 <= j < more.len() implies (#[trigger] more[j]).complete(
                branches[j],
            ) by {
                if j < i {
                    assert(more[j] == talks[j]);
                }
            }
            assert forall|j: int| 0 <= j < more.len() - 1 implies (#[trigger] more[j]).failed(
                branches[j],
            ) is None by {
                assert(more[j] == talks[j]);
            }
        }
        match outcome {
            Err(e) => {
                return (Err(e), Ghost(more));
            },
            Ok(()) => {},
        }
        proof {
            talks = more;
        }
        i = i + 1;
    }
    (Ok(()), Ghost(talks))
}

/// Refresh one pool. What the user has seen is left alone: see `mark_seen`.
/// `now` is recorded as the time of the refresh.
pub fn refresh_pool<H: GitHub>(
    gh: &mut H,
    file: &mut PoolFile,
    pool_index: usize,
    now: &str,
) -> (r: Result<PoolRefreshReport, StackError>)
    requires
        pool_index < old(file).pools@.len(),
    ensures
        exists|talks: Seq<BranchTalk>|
            #[trigger] refreshes(talks, old(file)@, pool_index as int, now@, final(file)@, r)
                && final(gh).history() == old(gh).history() + all_events(talks),
{
    let ghost before = file@;
    let ghost pool = before.pools[pool_index as int];
    assert(pool == file.pools@[pool_index as int]@);
    let mut report = PoolRefreshReport::default();
    let (outcome, Ghost(talks)) = refresh_branches(
        gh,
        &mut file.pools[pool_index].branches,
        &mut report,
    );
    match outcome {
        Err(e) => {
            assert(file@.pools =~= before.pools.update(
                pool_index as int,
                refreshed_pool(talks, pool, now@),
            ));
            assert(refreshes(talks, before, pool_index as int, now@, file@, Err(e)));
            Err(e)
        },
        Ok(()) => {
            file.pools[pool_index].last_refreshed_at = Some(now.to_string());
            assert(file@.pools =~= before.pools.update(
                pool_index as int,
                refreshed_pool(talks, pool, now@),
            ));
            assert(refreshes(talks, before, pool_index as int, now@, file@, Ok(report)));
            Ok(report)
        },
    }
}

/// A branch whose comments have all been seen.
pub open spec fn seen(b: PoolBranchView) -> PoolBranchView {
    PoolBranchView {
        pull_request: match b.pull_request {
            Some(p) => Some(
                PoolPullRequestView { seen_comment_count: p.comment_count, ..p },
            ),
            None => None,
        },
        ..b
    }
}

/// A list of branches whose comments have all been seen.
pub open spec fn all_seen(branches: Seq<PoolBranchView>) -> Seq<PoolBranchView> {
    branches.map_values(|b: PoolBranchView| seen(b))
}

fn mark_all_seen(list: &mut Vec<PoolBranch>)
    ensures
        branch_views(final(list)@) == all_seen(branch_views(old(list)@)),
{
    let ghost all = branch_views(list@);
    let ghost target = all_seen(all);
    let mut i: usize = 0;
    assert(all =~= target.take(0) + all.skip(0));
    while i < list.len()
        invariant
            i <= list.len(),
            list@.len() == all.len(),
            target == all_seen(all),
            all == branch_views(old(list)@),
            branch_views(list@) == target.take(i as int) + all.skip(i as int),
        decreases list.len() - i,
    {
        let ghost mid = list@;
        assert(branch_views(mid).len() == all.len());
        assert(branch_views(mid)[i as int] == mid[i as int]@);
        if let Some(pr) = list[i].pull_request.as_mut() {
            pr.seen_comment_count = pr.comment_count;
        }
        assert(branch_views(list@) =~= branch_views(mid).update(i as int, target[i as int]));
        assert(branch_views(list@) =~= target.take(i + 1) + all.skip(i + 1));
        i = i + 1;
    }
    assert(branch_views(list@) =~= target);
}

/// Take every comment in the pool as seen. Call after unread indicators were
/// shown to the user.
pub fn mark_seen(file: &mut PoolFile, pool_index: usize)
    requires
        pool_index < old(file).pools@.len(),
    ensures
        final(file)@ == (PoolFileView {
            pools: old(file)@.pools.update(
                pool_index as int,
                PoolView {
                    branches: all_seen(old(file)@.pools[pool_index as int].branches),
                    ..old(file)@.pools[pool_index as int]
                },
            ),
            ..old(file)@
        }),
{
    let ghost before = file@;
    let ghost pool = before.pools[pool_index as int];
    assert(pool == file.pools@[pool_index as int]@);
    mark_all_seen(&mut file.pools[pool_index].branches);
    assert(file@.pools =~= before.pools.update(
        pool_index as int,
        PoolView { branches: all_seen(pool.branches), ..pool },
    ));
}

/// The branches that are not merged.
pub open spec fn unmerged() -> spec_fn(PoolBranchView) -> bool {
    |b: PoolBranchView| !b.is_merged()
}

/// The branches that are merged.
pub open spec fn merged_ones() -> spec_fn(PoolBranchView) -> bool {
    |b: PoolBranchView| b.is_merged()
}

/// The names of a list of branches.
pub open spec fn names_of(branches: Seq<PoolBranchView>) -> Seq<Seq<char>> {
    branches.map_values(|b: PoolBranchView| b.branch)
}

/// Drop the merged branches from a pool. Returns the names of those removed,
/// in the pool's order.
pub fn drop_merged(file: &mut PoolFile, pool_index: usize) -> (r: Vec<String>)
    requires
        pool_index < old(file).pools@.len(),
    ensures
        text::views(r@) == names_of(
            old(file)@.pools[pool_index as int].branches.filter(merged_ones()),
        ),
        final(file)@ == (PoolFileView {
            pools: old(file)@.pools.update(
                pool_index as int,
                PoolView {
                    branches: old(file)@.pools[pool_index as int].branches.filter(unmerged()),
                    ..old(file)@.pools[pool_index as int]
                },
            ),
            ..old(file)@
        }),
{
    let ghost before = file@;
    let ghost pool = before.pools[pool_index as int];
    let ghost all = pool.branches;
    let ghost list = file.pools@[pool_index as int].branches@;
    assert(pool == file.pools@[pool_index as int]@);
    let mut dropped: Vec<String> = Vec::new();
    let mut kept: Vec<PoolBranch> = Vec::new();
    let mut i: usize = 0;
    let n: usize = file.pools[pool_index].branches.len();
    proof {
        reveal(Seq::filter);
        assert(text::views(dropped@) =~= names_of(all.take(0).filter(merged_ones())));
        assert(branch_views(kept@) =~= all.take(0).filter(unmerged()));
    }
    while i < n
        invariant
            i <= n,
            n == all.len(),
            pool_index < file.pools@.len(),
            list == file.pools@[pool_index as int].branches@,
            all == branch_views(list),
            text::views(dropped@) == names_of(all.take(i as int).filter(merged_ones())),
            branch_views(kept@) == all.take(i as int).filter(unmerged()),
        decreases n - i,
    {
        proof {
            seqs::lemma_filter_step(all, i as int, merged_ones());
            seqs::lemma_filter_step(all, i as int, unmerged());
            assert(all[i as int] == list[i as int]@);
        }
        let ghost names = text::views(dropped@);
        let ghost rest = branch_views(kept@);
        let ghost gone = all.take(i as int).filter(merged_ones());
        let b = &file.pools[pool_index].branches[i];
        if b.is_merged() {
            dropped.push(b.branch.clone());
            assert(text::views(dropped@) =~= names.push(all[i as int].branch));
            assert(names_of(gone.push(all[i as int])) =~= names_of(gone).push(
                all[i as int].branch,
            ));
        } else {
            kept.push(b.clone());
            assert(branch_views(kept@) =~= rest.push(all[i as int]));
        }
        i = i + 1;
    }
    assert(all.take(n as int) =~= all);
    file.pools[pool_index].branches = kept;
    assert(file@.pools =~= before.pools.update(
        pool_index as int,
        PoolView { branches: all.filter(unmerged()), ..pool },
    ));
    dropped
}

/// A refresh never moves what the user has seen of a pull request that was
/// already recorded, and takes nothing of a new one as seen.
pub proof fn law_refresh_keeps_seen(talk: BranchTalk, b: PoolBranchView)
    requires
        talk.complete(b),
    ensures
        talk.result(b).pull_request matches Some(p) ==> p.seen_comment_count == (
        match b.pull_request {
            Some(q) => q.seen_comment_count,
            None => 0,
        }),
        talk.result(b).branch == b.branch,
        talk.result(b).head == b.head,
        talk.result(b).base == b.base,
{
}

/// Once everything was taken as seen, nothing is unread, and taking it as seen
/// again changes nothing.
pub proof fn law_seen_clears_unread(b: PoolBranchView)
    ensures
        seen(b).unread() == 0,
        seen(seen(b)) == seen(b),
{
}

/// After everything was taken as seen, the next refresh leaves as unread
/// exactly the comments that came in since.
pub proof fn law_unread_counts_new_comments(b: PoolBranchView, talk: BranchTalk)
    requires
        talk.complete(seen(b)),
        talk.failed(seen(b)) is None,
        b.pull_request is Some,
        lookup_answer(talk.lookup) matches Ok(Some(info)) && info.comment_count
            >= b.pull_request->0.comment_count,
    ensures
        talk.result(seen(b)).unread() == lookup_answer(talk.lookup)->Ok_0->0.comment_count
            - b.pull_request->0.comment_count,
{
}

/// What GitHub answers to every question, for as long as nothing moves there.
pub struct Standing {
    /// The pull request of a number.
    pub view: spec_fn(u64) -> Result<PrInfoView, Fault>,
    /// The pull request that stands for a branch.
    pub find: spec_fn(Seq<char>) -> Result<Option<PrInfoView>, Fault>,
}

impl Standing {
    /// Whether a question was answered so.
    pub open spec fn gives(self, e: HubEvent) -> bool {
        match e {
            HubEvent::View { number, reply: Ok(info) } => (self.view)(number) == Ok::<
                PrInfoView,
                Fault,
            >(info@),
            HubEvent::View { number, reply: Err(f) } => (self.view)(number) == Err::<
                PrInfoView,
                Fault,
            >(f@),
            HubEvent::FindByHead { branch, .. } => (self.find)(branch) == lookup_answer(e),
            _ => true,
        }
    }

    /// Whether every question about a branch was answered so.
    pub open spec fn tells(self, talk: BranchTalk) -> bool {
        &&& self.gives(talk.lookup)
        &&& forall|i: int| 0 <= i < talk.walk.len() ==> self.gives(#[trigger] talk.walk[i])
    }

    /// Whether the pull request that was found for a branch is also what a
    /// lookup by its number gives.
    pub open spec fn coherent(self, talk: BranchTalk) -> bool {
        lookup_answer(talk.lookup) matches Ok(Some(info)) ==> (self.view)(info.number) == Ok::<
            PrInfoView,
            Fault,
        >(info)
    }

    /// Where a walk comes to.
    pub open spec fn walked(self, w: Walk) -> Walk
        decreases
                if w.done() {
                    0
                } else {
                    w.left
                },
    {
        if w.done() {
            w
        } else {
            self.walked(
                match (self.find)(w.current) {
                    Ok(Some(p)) => if p.state == PrState::Merged && p.base_ref != w.current {
                        Walk { current: p.base_ref, left: (w.left - 1) as nat, ..w }
                    } else {
                        Walk { settled: true, ..w }
                    },
                    Ok(None) => Walk { settled: true, ..w },
                    Err(f) => Walk { failed: Some(f), ..w },
                },
            )
        }
    }
}

/// A walk that is answered so comes where `walked` says.
proof fn lemma_walked(hub: Standing, start: Walk, events: Seq<HubEvent>)
    requires
        start.follows(events),
        forall|i: int| 0 <= i < events.len() ==> hub.gives(#[trigger] events[i]),
    ensures
        hub.walked(start) == hub.walked(start.after(events)),
    decreases events.len(),
{
    if events.len() > 0 {
        let rest = events.drop_last();
        assert forall|i: int| 0 <= i < rest.len() implies hub.gives(#[trigger] rest[i]) by {
            assert(rest[i] == events[i]);
        }
        lemma_walked(hub, start, rest);
        assert(hub.gives(events[events.len() - 1]));
    }
}

/// Where a walk settled, another one that starts there settles at once.
proof fn lemma_settled(hub: Standing, w: Walk, depth: nat)
    requires
        !w.settled,
        hub.walked(w).settled,
        depth > 0,
    ensures
        ({
            let there = hub.walked(w).current;
            hub.walked(Walk::start(there, depth)) == (Walk {
                settled: true,
                ..Walk::start(there, depth)
            })
        }),
    decreases w.left,
{
    assert(!w.done());
    match (hub.find)(w.current) {
        Ok(Some(p)) => if p.state == PrState::Merged && p.base_ref != w.current {
            lemma_settled(
                hub,
                Walk { current: p.base_ref, left: (w.left - 1) as nat, ..w },
                depth,
            );
        } else {
            reveal_with_fuel(Standing::walked, 2);
        },
        Ok(None) => {
            reveal_with_fuel(Standing::walked, 2);
        },
        Err(f) => {
            reveal_with_fuel(Standing::walked, 2);
        },
    }
}

/// Whether the walk for a branch without a pull request came to a base that is
/// not merged. Only one that ran into the limit on bases does not.
pub open spec fn walk_settled(talk: BranchTalk, b: PoolBranchView) -> bool {
    lookup_answer(talk.lookup) == Ok::<Option<PrInfoView>, Fault>(None) && b.base_branch.len() > 0
        ==> Walk::start(b.base_branch, MAX_HOPS as nat).after(talk.walk).settled
}

/// A branch that is refreshed twice while nothing moves does not change the
/// second time.
proof fn lemma_branch_settles(
    hub: Standing,
    b: PoolBranchView,
    first: BranchTalk,
    second: BranchTalk,
)
    requires
        first.complete(b),
        first.failed(b) is None,
        second.complete(first.result(b)),
        hub.tells(first),
        hub.tells(second),
        hub.coherent(first),
        walk_settled(first, b),
    ensures
        second.failed(first.result(b)) is None,
        second.result(first.result(b)) == first.result(b),
        second.changes(first.result(b)).len() == 0,
        second.merged(first.result(b)).len() == 0,
{
    let once = first.result(b);
    let hops = MAX_HOPS as nat;
    assert(hub.gives(first.lookup) && hub.gives(second.lookup));
    match lookup_answer(first.lookup) {
        Ok(Some(info)) => {
            assert((hub.view)(info.number) == Ok::<PrInfoView, Fault>(info));
            assert(once.pull_request == Some(updated_pr(b, info)));
            assert(lookup_answer(second.lookup) == Ok::<Option<PrInfoView>, Fault>(Some(info)));
            let start = Walk::start(info.base_ref, hops);
            lemma_walked(hub, start, first.walk);
            lemma_walked(hub, start, second.walk);
            assert(start.after(first.walk) == start.after(second.walk));
        },
        Ok(None) => {
            assert(b.pull_request is None);
            assert(lookup_answer(second.lookup) == lookup_answer(first.lookup));
            if b.base_branch.len() > 0 {
                let start = Walk::start(b.base_branch, hops);
                lemma_walked(hub, start, first.walk);
                lemma_settled(hub, start, hops);
                if once.base_branch.len() > 0 {
                    lemma_walked(hub, Walk::start(once.base_branch, hops), second.walk);
                }
            }
        },
        Err(_) => {},
    }
}

/// A second refresh of a pool while nothing moves on GitHub succeeds, reports
/// nothing and changes nothing but the time of the refresh, unless the first
/// left a branch without a pull request on a base that is still merged. What was
/// found for a branch is what GitHub gives under the number found.
pub proof fn law_refresh_settles(
    hub: Standing,
    before: PoolFileView,
    index: int,
    first: (Seq<BranchTalk>, Seq<char>, Result<PoolRefreshReport, StackError>),
    mid: PoolFileView,
    second: (Seq<BranchTalk>, Seq<char>, Result<PoolRefreshReport, StackError>),
    after: PoolFileView,
)
    requires
        0 <= index < before.pools.len(),
        refreshes(first.0, before, index, first.1, mid, first.2),
        refreshes(second.0, mid, index, second.1, after, second.2),
        first.2 is Ok,
        forall|i: int| 0 <= i < first.0.len() ==> hub.tells(#[trigger] first.0[i]),
        forall|i: int| 0 <= i < second.0.len() ==> hub.tells(#[trigger] second.0[i]),
        forall|i: int| 0 <= i < first.0.len() ==> hub.coherent(#[trigger] first.0[i]),
        forall|i: int|
            0 <= i < first.0.len() ==> walk_settled(
                #[trigger] first.0[i],
                before.pools[index].branches[i],
            ),
    ensures
        second.2 matches Ok(report) && report.changes@.len() == 0
            && report.newly_merged_branches@.len() == 0,
        after == (PoolFileView {
            pools: mid.pools.update(
                index,
                PoolView { last_refreshed_at: Some(second.1), ..mid.pools[index] },
            ),
            ..mid
        }),
{
    let then = before.pools[index].branches;
    let new = mid.pools[index].branches;
    let talks = second.0;
    assert(new =~= all_results(first.0, then));
    assert forall|i: int| 0 <= i < talks.len() implies (#[trigger] talks[i]).failed(new[i]) is None
        && talks[i].result(new[i]) == new[i] && talks[i].changes(new[i]).len() == 0
        && talks[i].merged(new[i]).len() == 0 by {
        assert(first.0[i].complete(then[i]));
        assert(first.0[i].failed(then[i]) is None);
        assert(new[i] == first.0[i].result(then[i]));
        assert(hub.coherent(first.0[i]));
        lemma_branch_settles(hub, then[i], first.0[i], talks[i]);
    }
    lemma_no_changes(talks, new);
    if talks.len() > 0 {
        assert(talks.last() == talks[talks.len() - 1]);
    }
    assert(all_results(talks, new) =~= new);
    let report = second.2->Ok_0;
    assert(change_views(report.changes@).len() == report.changes@.len());
    assert(text::views(report.newly_merged_branches@).len() == report.newly_merged_branches@.len());
}

/// Where no branch changes, nothing is reported.
proof fn lemma_no_changes(talks: Seq<BranchTalk>, branches: Seq<PoolBranchView>)
    requires
        forall|i: int|
            0 <= i < talks.len() ==> (#[trigger] talks[i]).changes(branches[i]).len() == 0
                && talks[i].merged(branches[i]).len() == 0,
    ensures
        all_changes(talks, branches).len() == 0,
        all_merged(talks, branches).len() == 0,
    decreases talks.len(),
{
    if talks.len() > 0 {
        let rest = talks.drop_last();
        assert forall|i: int| 0 <= i < rest.len() implies (#[trigger] rest[i]).changes(
            branches[i],
        ).len() == 0 && rest[i].merged(branches[i]).len() == 0 by {
            assert(rest[i] == talks[i]);
        }
        lemma_no_changes(rest, branches);
        assert(talks.last() == talks[talks.len() - 1]);
    }
}

/// Dropping merged branches leaves none, loses no other, and changes nothing
/// the second time.
pub proof fn law_drop_merged(branches: Seq<PoolBranchView>)
    ensures
        forall|i: int|
            0 <= i < branches.filter(unmerged()).len()
                ==> !(#[trigger] branches.filter(unmerged())[i]).is_merged(),
        forall|i: int|
            0 <= i < branches.len() && !(#[trigger] branches[i]).is_merged() ==> branches.filter(
                unmerged(),
            ).contains(branches[i]),
        branches.filter(unmerged()).filter(unmerged()) == branches.filter(unmerged()),
        branches.filter(unmerged()).filter(merged_ones()).len() == 0,
{
    seqs::lemma_filter_all(branches, unmerged());
    seqs::lemma_filter_id(branches.filter(unmerged()), unmerged());
    let kept = branches.filter(unmerged());
    seqs::lemma_filter_all(kept, merged_ones());
    if kept.filter(merged_ones()).len() > 0 {
        let b = kept.filter(merged_ones())[0];
        assert(merged_ones()(b));
        assert(kept.contains(b));
        let k = choose|k: int| 0 <= k < kept.len() && kept[k] == b;
        assert(unmerged()(kept[k]));
    }
}

/// A walk asks about no more than `depth` bases.
pub proof fn law_walk_is_bounded(base: Seq<char>, depth: nat, events: Seq<HubEvent>)
    requires
        Walk::start(base, depth).follows(events),
    ensures
        events.len() <= depth,
        Walk::start(base, depth).after(events).left + events.len() <= depth + 1,
    decreases events.len(),
{
    if events.len() > 0 {
        let rest = events.drop_last();
        law_walk_is_bounded(base, depth, rest);
        lemma_walk_left(base, depth, rest);
    }
}

proof fn lemma_walk_left(base: Seq<char>, depth: nat, events: Seq<HubEvent>)
    requires
        Walk::start(base, depth).follows(events),
    ensures
        ({
            let w = Walk::start(base, depth).after(events);
            if w.settled || w.failed is Some {
                w.left + events.len() == depth + 1
            } else {
                w.left + events.len() == depth
            }
        }),
    decreases events.len(),
{
    if events.len() > 0 {
        lemma_walk_left(base, depth, events.drop_last());
    }
}

/// `#` and a number.
pub open spec fn hashed(number: u64) -> Seq<char> {
    "#"@ + text::decimal(number as nat)
}

fn hash_number(number: u64) -> (r: String)
    ensures
        r@ == hashed(number),
{
    text::cat("#", text::to_decimal(number).as_str())
}

/// A report line: glyph, branch, pull-request number, message.
pub open spec fn report_line(
    glyph: Seq<char>,
    branch: Seq<char>,
    number: u64,
    message: Seq<char>,
    on: bool,
) -> Seq<char> {
    "  "@ + glyph + " "@ + branch + "  "@ + style::secondary_of(hashed(number), on) + "  "@ + message
}

fn make_report_line(glyph: &str, branch: &str, number: u64, message: &str, on: bool) -> (r: String)
    ensures
        r@ == report_line(glyph@, branch@, number, message@, on),
{
    let mut s = "  ".to_string();
    s.append(glyph);
    s.append(" ");
    s.append(branch);
    s.append("  ");
    s.append(style::secondary(hash_number(number).as_str(), on).as_str());
    s.append("  ");
    s.append(message);
    s
}

/// How many comments are new, in words.
pub open spec fn comments_text(new: u64, total: u64) -> Seq<char> {
    text::decimal(new as nat) + " new comment"@ + (if new == 1 {
        ""@
    } else {
        "s"@
    }) + " ("@ + text::decimal(total as nat) + " total)"@
}

/// The lines that report one change. `on` is colour on standard output, `err`
/// on the error stream; the pool is as the refresh left it.
pub open spec fn change_lines(c: ChangeView, pool: PoolView, on: bool, err: bool) -> Seq<
    Seq<char>,
> {
    match c.kind {
        KindView::PrDiscovered { number } => {
            let line = report_line(
                style::ok_of("●"@, on),
                c.branch,
                number,
                style::dim_of("(PR discovered)"@, on),
                on,
            );
            match pool.position(c.branch) {
                Some(k) => match pool.branches[k].pull_request {
                    Some(p) => seq![line, "      "@ + style::url_of(p.url, err)],
                    None => seq![line],
                },
                None => seq![line],
            }
        },
        KindView::Merged { number } => seq![
            report_line(
                style::merged_of("✓"@, on),
                c.branch,
                number,
                style::merged_of("merged"@, on),
                on,
            ),
        ],
        KindView::NewComments { number, new, total } => seq![
            report_line(
                style::accent_of("✉"@, on),
                c.branch,
                number,
                style::accent_of(comments_text(new, total), on),
                on,
            ),
        ],
        KindView::MergeableChanged { number, mergeable } => match mergeable {
            Some(false) => seq![
                report_line(
                    style::warn_of("⚠"@, on),
                    c.branch,
                    number,
                    style::warn_of("now conflicts with trunk"@, on),
                    on,
                ),
            ],
            Some(true) => seq![
                report_line(
                    style::ok_of("●"@, on),
                    c.branch,
                    number,
                    style::ok_of("cleanly mergeable"@, on),
                    on,
                ),
            ],
            None => seq![
                report_line(
                    style::dim_of("○"@, on),
                    c.branch,
                    number,
                    style::dim_of("mergeable state unknown"@, on),
                    on,
                ),
            ],
        },
        KindView::Reparented { from, to } => seq![
            "  "@ + style::accent_of("⇡"@, on) + " "@ + c.branch + "  "@ + style::secondary_of(
                from,
                on,
            ) + " → "@ + style::secondary_of(to, on) + " "@ + style::dim_of(
                "(base merged; reparented)"@,
                on,
            ),
        ],
    }
}

/// The lines that report a list of changes.
pub open spec fn changes_lines(list: Seq<ChangeView>, pool: PoolView, on: bool, err: bool) -> Seq<
    Seq<char>,
>
    decreases list.len(),
{
    if list.len() == 0 {
        Seq::empty()
    } else {
        changes_lines(list.drop_last(), pool, on, err) + change_lines(list.last(), pool, on, err)
    }
}

/// What a refresh tells the user.
pub open spec fn report_text(changes: Seq<ChangeView>, pool: PoolView, on: bool, err: bool) -> Seq<
    Seq<char>,
> {
    if changes.len() == 0 {
        seq!["✓ pool "@ + pool.label() + " up to date — no changes since last refresh"@]
    } else {
        seq!["Pool "@ + style::accent_of(pool.label(), on) + " — changes:"@] + changes_lines(
            changes,
            pool,
            on,
            err,
        )
    }
}

fn comments_words(new: u64, total: u64) -> (r: String)
    ensures
        r@ == comments_text(new, total),
{
    let mut s = text::cat(text::to_decimal(new).as_str(), " new comment");
    if new == 1 {
        s.append("");
    } else {
        s.append("s");
    }
    s.append(" (");
    s.append(text::to_decimal(total).as_str());
    s.append(" total)");
    s
}

fn make_change_lines(c: &PoolRefreshChange, pool: &Pool, on: bool, err: bool) -> (r: Vec<String>)
    ensures
        text::views(r@) == change_lines(c@, pool@, on, err),
{
    let mut out: Vec<String> = Vec::new();
    let branch = c.branch.as_str();
    match &c.kind {
        PoolRefreshKind::PrDiscovered { number } => {
            let line = make_report_line(
                style::ok("●", on).as_str(),
                branch,
                *number,
                style::dim("(PR discovered)", on).as_str(),
                on,
            );
            out.push(line);
            if let Some(k) = pool.position(branch) {
                assert(pool@.branches[k as int] == pool.branches@[k as int]@);
                if let Some(pr) = &pool.branches[k].pull_request {
                    out.push(text::cat("      ", style::url_err(pr.url.as_str(), err).as_str()));
                }
            }
        },
        PoolRefreshKind::Merged { number } => {
            out.push(
                make_report_line(
                    style::merged("✓", on).as_str(),
                    branch,
                    *number,
                    style::merged("merged", on).as_str(),
                    on,
                ),
            );
        },
        PoolRefreshKind::NewComments { number, new, total } => {
            out.push(
                make_report_line(
                    style::accent("✉", on).as_str(),
                    branch,
                    *number,
                    style::accent(comments_words(*new, *total).as_str(), on).as_str(),
                    on,
                ),
            );
        },
        PoolRefreshKind::MergeableChanged { number, mergeable } => {
            let (glyph, message) = match mergeable {
                Some(false) => (style::warn("⚠", on), style::warn("now conflicts with trunk", on)),
                Some(true) => (style::ok("●", on), style::ok("cleanly mergeable", on)),
                None => (style::dim("○", on), style::dim("mergeable state unknown", on)),
            };
            out.push(
                make_report_line(glyph.as_str(), branch, *number, message.as_str(), on),
            );
        },
        PoolRefreshKind::Reparented { from, to } => {
            let mut s = "  ".to_string();
            s.append(style::accent("⇡", on).as_str());
            s.append(" ");
            s.append(branch);
            s.append("  ");
            s.append(style::secondary(from.as_str(), on).as_str());
            s.append(" → ");
            s.append(style::secondary(to.as_str(), on).as_str());
            s.append(" ");
            s.append(style::dim("(base merged; reparented)", on).as_str());
            out.push(s);
        },
    }
    assert(text::views(out@) =~= change_lines(c@, pool@, on, err));
    out
}

/// The lines that tell the user what a refresh found. `on` is colour on
/// standard output, `err` on the error stream; the pool is as the refresh left
/// it.
pub fn render_report(report: &PoolRefreshReport, pool: &Pool, on: bool, err: bool) -> (r: Vec<
    String,
>)
    ensures
        text::views(r@) == report_text(change_views(report.changes@), pool@, on, err),
{
    let ghost all = change_views(report.changes@);
    let mut out: Vec<String> = Vec::new();
    if report.changes.len() == 0 {
        out.push(
            text::cat3(
                "✓ pool ",
                pool.display_label(),
                " up to date — no changes since last refresh",
            ),
        );
        assert(text::views(out@) =~= report_text(all, pool@, on, err));
        return out;
    }
    out.push(
        text::cat3("Pool ", style::accent(pool.display_label(), on).as_str(), " — changes:"),
    );
    let ghost head = text::views(out@);
    assert(head =~= seq!["Pool "@ + style::accent_of(pool@.label(), on) + " — changes:"@]);
    let mut i: usize = 0;
    assert(head =~= head + changes_lines(all.take(0), pool@, on, err));
    while i < report.changes.len()
        invariant
            i <= report.changes.len(),
            all == change_views(report.changes@),
            text::views(out@) == head + changes_lines(all.take(i as int), pool@, on, err),
        decreases report.changes.len() - i,
    {
        let ghost before = out@;
        let mut lines = make_change_lines(&report.changes[i], pool, on, err);
        let ghost added = lines@;
        out.append(&mut lines);
        proof {
            assert(all[i as int] == report.changes@[i as int]@);
            assert(all.take(i + 1).drop_last() =~= all.take(i as int));
            assert(text::views(out@) =~= text::views(before) + text::views(added));
            assert(text::views(out@) =~= head + changes_lines(all.take(i + 1), pool@, on, err));
        }
        i = i + 1;
    }
    assert(all.take(report.changes.len() as int) =~= all);
    out
}

/// Whether a branch is marked as merged.
pub open spec fn marked(b: PoolBranchView) -> bool {
    b.pull_request matches Some(p) && p.merged
}

/// Whether one thing that is told of a branch holds of the records before and
/// after: a pull request that was not there before is there; one that was not
/// merged is; there are so many more comments, and so many in all; the merge
/// check is what it was not; the branch names another base.
pub open spec fn holds(c: ChangeView, was: PoolBranchView, is: PoolBranchView) -> bool {
    &&& c.branch == was.branch
    &&& match c.kind {
        KindView::PrDiscovered { number } => was.pull_request is None && (
        is.pull_request matches Some(p) && p.number == number),
        KindView::Merged { number } => !marked(was) && (is.pull_request matches Some(p) && p.number
            == number && p.merged),
        KindView::NewComments { number, new, total } => is.pull_request matches Some(p) && p.number
            == number && p.comment_count == total && new > 0 && (match was.pull_request {
            Some(q) => q.comment_count + new == total,
            None => new == total,
        }),
        KindView::MergeableChanged { number, mergeable } => is.pull_request matches Some(p)
            && p.number == number && p.mergeable == mergeable && (match was.pull_request {
            Some(q) => q.mergeable != mergeable,
            None => mergeable is Some,
        }),
        KindView::Reparented { from, to } => was.base_branch == from && is.base_branch == to && from
            != to && from.len() > 0,
    }
}

/// What a refresh reports of a branch agrees with what it records.
#[verifier::rlimit(40)]
pub proof fn law_report_agrees_with_record(talk: BranchTalk, b: PoolBranchView)
    requires
        talk.complete(b),
        talk.failed(b) is None,
    ensures
        forall|k: int|
            0 <= k < talk.changes(b).len() ==> holds(
                #[trigger] talk.changes(b)[k],
                b,
                talk.result(b),
            ),
        talk.merged(b) == (if !marked(b) && marked(talk.result(b)) {
            seq![b.branch]
        } else {
            Seq::empty()
        }),
{
    let is = talk.result(b);
    if let Ok(Some(info)) = lookup_answer(talk.lookup) {
        let list = pr_changes(b, info);
        let base = base_changes(b, talk.base(b));
        assert forall|k: int| 0 <= k < list.len() implies holds(#[trigger] list[k], b, is) by {}
        assert forall|k: int| 0 <= k < talk.changes(b).len() implies holds(
            #[trigger] talk.changes(b)[k],
            b,
            is,
        ) by {
            if k < list.len() {
                assert(talk.changes(b)[k] == list[k]);
            } else {
                assert(talk.changes(b)[k] == base[k - list.len()]);
            }
        }
    }
}

/// Whether everything that is new of a branch is told: a pull request that came
/// up, that was merged, that has more comments or another merge check, and
/// another base.
pub open spec fn reported(
    was: PoolBranchView,
    is: PoolBranchView,
    told: Seq<ChangeView>,
) -> bool {
    &&& is.pull_request matches Some(p) ==> {
        &&& was.pull_request is None ==> told.contains(
            ChangeView { branch: was.branch, kind: KindView::PrDiscovered { number: p.number } },
        )
        &&& !marked(was) && p.merged ==> told.contains(
            ChangeView { branch: was.branch, kind: KindView::Merged { number: p.number } },
        )
        &&& {
            let had: u64 = match was.pull_request {
                Some(q) => q.comment_count,
                None => 0,
            };
            p.comment_count > had ==> told.contains(
                ChangeView {
                    branch: was.branch,
                    kind: KindView::NewComments {
                        number: p.number,
                        new: (p.comment_count - had) as u64,
                        total: p.comment_count,
                    },
                },
            )
        }
        &&& p.mergeable != (match was.pull_request {
            Some(q) => q.mergeable,
            None => None,
        }) ==> told.contains(
            ChangeView {
                branch: was.branch,
                kind: KindView::MergeableChanged { number: p.number, mergeable: p.mergeable },
            },
        )
    }
    &&& is.base_branch != was.base_branch && was.base_branch.len() > 0 ==> told.contains(
        ChangeView {
            branch: was.branch,
            kind: KindView::Reparented { from: was.base_branch, to: is.base_branch },
        },
    )
}

#[verifier::rlimit(40)]
proof fn lemma_pr_reported(b: PoolBranchView, info: PrInfoView)
    ensures
        ({
            let list = pr_changes(b, info);
            let had: u64 = match b.pull_request {
                Some(q) => q.comment_count,
                None => 0,
            };
            &&& b.pull_request is None ==> list.contains(
                ChangeView {
                    branch: b.branch,
                    kind: KindView::PrDiscovered { number: info.number },
                },
            )
            &&& !marked(b) && info.state == PrState::Merged ==> list.contains(
                ChangeView { branch: b.branch, kind: KindView::Merged { number: info.number } },
            )
            &&& info.comment_count > had ==> list.contains(
                ChangeView {
                    branch: b.branch,
                    kind: KindView::NewComments {
                        number: info.number,
                        new: (info.comment_count - had) as u64,
                        total: info.comment_count,
                    },
                },
            )
            &&& info.mergeable != (match b.pull_request {
                Some(q) => q.mergeable,
                None => None,
            }) ==> list.contains(
                ChangeView {
                    branch: b.branch,
                    kind: KindView::MergeableChanged {
                        number: info.number,
                        mergeable: info.mergeable,
                    },
                },
            )
        }),
{
    let list = pr_changes(b, info);
    let had: u64 = match b.pull_request {
        Some(q) => q.comment_count,
        None => 0,
    };
    let d: int = if b.pull_request is None {
        1
    } else {
        0
    };
    let m: int = if now_merged(b, info) {
        1
    } else {
        0
    };
    let c: int = if info.comment_count > had {
        1
    } else {
        0
    };
    if d == 1 {
        assert(list[0].kind is PrDiscovered);
    }
    if m == 1 {
        assert(list[d].kind is Merged);
    }
    if c == 1 {
        assert(list[d + m].kind is NewComments);
    }
    if list.len() > d + m + c {
        assert(list[d + m + c].kind is MergeableChanged);
    }
}

/// What a refresh changes of a branch is reported.
#[verifier::rlimit(40)]
pub proof fn law_record_agrees_with_report(talk: BranchTalk, b: PoolBranchView)
    requires
        talk.complete(b),
        talk.failed(b) is None,
    ensures
        reported(b, talk.result(b), talk.changes(b)),
{
    let told = talk.changes(b);
    let base = base_changes(b, talk.base(b));
    let list = match lookup_answer(talk.lookup) {
        Ok(Some(info)) => pr_changes(b, info),
        _ => Seq::empty(),
    };
    assert(told =~= list + base);
    if let Ok(Some(info)) = lookup_answer(talk.lookup) {
        lemma_pr_reported(b, info);
    }
    assert forall|c: ChangeView| #[trigger] list.contains(c) implies told.contains(c) by {
        let k = choose|k: int| 0 <= k < list.len() && list[k] == c;
        assert(told[k] == c);
    }
    if base.len() > 0 {
        assert(told[list.len() as int] == base[0]);
    }
}

/// What is recorded of a branch is what GitHub answered: the pull request under
/// the number it was looked up by, or the one found for the branch's name. A
/// branch for which none was found keeps what it has.
pub proof fn law_record_is_githubs(talk: BranchTalk, b: PoolBranchView)
    requires
        talk.complete(b),
        talk.failed(b) is None,
    ensures
        ({
            let e = talk.events();
            let is = talk.result(b);
            &&& is.branch == b.branch && is.head == b.head && is.base == b.base
            &&& e.len() > 0
            &&& match b.pull_request {
                Some(q) => e[0] matches HubEvent::View { number, reply: Ok(info) } && number
                    == q.number && recorded_as(is, info@, q.seen_comment_count),
                None => e[0] matches HubEvent::FindByHead { branch, reply: Ok(found) } && branch
                    == b.branch && match found {
                    Some(info) => recorded_as(is, info@, 0),
                    None => is.pull_request is None,
                },
            }
        }),
{
    assert(talk.events()[0] == talk.lookup);
}

/// Whether a record holds what GitHub says, and that so many comments were seen.
pub open spec fn recorded_as(b: PoolBranchView, info: PrInfoView, seen: u64) -> bool {
    b.pull_request matches Some(p) && p.number == info.number && p.id == info.id && p.url
        == info.url && p.merged == (info.state == PrState::Merged) && p.comment_count
        == info.comment_count && p.mergeable == info.mergeable && p.seen_comment_count == seen
}

/// A walk starts by asking for the base it is given, and goes on exactly where
/// the pull request of the base asked for was merged into another one: that one
/// comes next, and where the limit on bases is reached the walk ends there. Else
/// it ends where it is, or with GitHub's error.
pub proof fn law_walk_follows_merged(base: Seq<char>, depth: nat, events: Seq<HubEvent>)
    requires
        Walk::complete(base, depth, events),
        depth > 0,
    ensures
        events.len() > 0,
        forall|i: int| 0 <= i < events.len() ==> #[trigger] events[i] is FindByHead,
        events[0]->FindByHead_branch == base,
        forall|i: int|
            0 <= i < events.len() ==> match (#[trigger] events[i])->FindByHead_reply {
                Ok(Some(p)) if p.state == PrState::Merged && p.base_ref@
                    != events[i]->FindByHead_branch => if i + 1 < events.len() {
                    events[i + 1]->FindByHead_branch == p.base_ref@
                } else {
                    events.len() == depth && Walk::end(base, depth, events) == Ok::<
                        Seq<char>,
                        Fault,
                    >(p.base_ref@)
                },
                Ok(_) => i == events.len() - 1 && Walk::end(base, depth, events) == Ok::<
                    Seq<char>,
                    Fault,
                >(events[i]->FindByHead_branch),
                Err(f) => i == events.len() - 1 && Walk::end(base, depth, events) == Err::<
                    Seq<char>,
                    Fault,
                >(f@),
            },
{
    lemma_walk_steps(base, depth, events);
    lemma_walk_left(base, depth, events);
}

/// How a walk stands after its first questions.
proof fn lemma_walk_steps(base: Seq<char>, depth: nat, events: Seq<HubEvent>)
    requires
        Walk::start(base, depth).follows(events),
    ensures
        forall|i: int| 0 <= i < events.len() ==> #[trigger] events[i] is FindByHead,
        events.len() > 0 ==> events[0]->FindByHead_branch == base,
        ({
            let w = Walk::start(base, depth).after(events);
            &&& events.len() == 0 ==> w.current == base
            &&& forall|i: int|
                0 <= i < events.len() ==> match (#[trigger] events[i])->FindByHead_reply {
                    Ok(Some(p)) if p.state == PrState::Merged && p.base_ref@
                        != events[i]->FindByHead_branch => if i + 1 < events.len() {
                        events[i + 1]->FindByHead_branch == p.base_ref@
                    } else {
                        w.current == p.base_ref@ && !w.settled && w.failed is None
                    },
                    Ok(_) => i == events.len() - 1 && w.settled && w.failed is None && w.current
                        == events[i]->FindByHead_branch,
                    Err(f) => i == events.len() - 1 && w.failed == Some(f@),
                }
        }),
    decreases events.len(),
{
    if events.len() > 0 {
        let rest = events.drop_last();
        lemma_walk_steps(base, depth, rest);
        let mid = Walk::start(base, depth).after(rest);
        assert forall|i: int| 0 <= i < events.len() implies #[trigger] events[i] is FindByHead by {
            if i < rest.len() {
                assert(events[i] == rest[i]);
            }
        }
        if rest.len() > 0 {
            assert(events[0] == rest[0]);
            assert(rest[rest.len() - 1] == events[rest.len() - 1]);
        }
        let w = Walk::start(base, depth).after(events);
        assert forall|i: int| 0 <= i < events.len() implies match (
        #[trigger] events[i])->FindByHead_reply {
            Ok(Some(p)) if p.state == PrState::Merged && p.base_ref@
                != events[i]->FindByHead_branch => if i + 1 < events.len() {
                events[i + 1]->FindByHead_branch == p.base_ref@
            } else {
                w.current == p.base_ref@ && !w.settled && w.failed is None
            },
            Ok(_) => i == events.len() - 1 && w.settled && w.failed is None && w.current
                == events[i]->FindByHead_branch,
            Err(f) => i == events.len() - 1 && w.failed == Some(f@),
        } by {
            if i < rest.len() {
                assert(events[i] == rest[i]);
                if i + 1 < rest.len() {
                    assert(events[i + 1] == rest[i + 1]);
                }
            }
        }
    }
}

/// A branch comes to sit where the walk ended that starts at the base of its
/// pull request, or at its recorded base where it has none.
pub proof fn law_base_is_where_walk_ends(talk: BranchTalk, b: PoolBranchView)
    requires
        talk.complete(b),
        talk.failed(b) is None,
    ensures
        ({
            let e = talk.events();
            let target = match e[0] {
                HubEvent::View { reply: Ok(info), .. } => Some(info.base_ref@),
                HubEvent::FindByHead { reply: Ok(Some(info)), .. } => Some(info.base_ref@),
                _ => if b.base_branch.len() > 0 {
                    Some(b.base_branch)
                } else {
                    None
                },
            };
            match target {
                Some(from) => Walk::complete(from, MAX_HOPS as nat, e.skip(1)) && Ok::<
                    Seq<char>,
                    Fault,
                >(talk.result(b).base_branch) == Walk::end(from, MAX_HOPS as nat, e.skip(1)),
                None => e.len() == 1 && talk.result(b).base_branch == b.base_branch,
            }
        }),
{
    assert(talk.events()[0] == talk.lookup);
    assert(talk.events().skip(1) =~= talk.walk);
}

/// Refreshing a branch only looks things up.
pub proof fn lemma_only_looks(talk: BranchTalk, b: PoolBranchView, i: int)
    requires
        talk.complete(b),
        0 <= i < talk.events().len(),
    ensures
        talk.events()[i] is FindByHead || talk.events()[i] is View,
{
    if i == 0 {
        assert(talk.events()[0] == talk.lookup);
    } else {
        assert(talk.events()[i] == talk.walk[i - 1]);
        if let Some(base) = talk.walk_from(b) {
            lemma_walk_steps(base, MAX_HOPS as nat, talk.walk);
        }
    }
}

/// Refreshing branches only looks things up.
pub proof fn lemma_all_only_look(talks: Seq<BranchTalk>, branches: Seq<PoolBranchView>, i: int)
    requires
        talks.len() <= branches.len(),
        forall|j: int| 0 <= j < talks.len() ==> (#[trigger] talks[j]).complete(branches[j]),
        0 <= i < all_events(talks).len(),
    ensures
        all_events(talks)[i] is FindByHead || all_events(talks)[i] is View,
    decreases talks.len(),
{
    let rest = talks.drop_last();
    let below = all_events(rest);
    if i < below.len() {
        assert forall|j: int| 0 <= j < rest.len() implies (#[trigger] rest[j]).complete(
            branches[j],
        ) by {
            assert(rest[j] == talks[j]);
        }
        lemma_all_only_look(rest, branches, i);
        assert(all_events(talks)[i] == below[i]);
    } else {
        let last = talks.len() - 1;
        assert(talks[last].complete(branches[last]));
        lemma_only_looks(talks.last(), branches[last], i - below.len());
        assert(all_events(talks)[i] == talks.last().events()[i - below.len()]);
    }
}

proof fn lemma_change_of(talks: Seq<BranchTalk>, branches: Seq<PoolBranchView>, k: int) -> (j: int)
    requires
        0 <= k < all_changes(talks, branches).len(),
    ensures
        0 <= j < talks.len(),
        talks[j].changes(branches[j]).contains(all_changes(talks, branches)[k]),
    decreases talks.len(),
{
    let rest = talks.drop_last();
    let below = all_changes(rest, branches);
    let last = talks.len() - 1;
    if k < below.len() {
        let j = lemma_change_of(rest, branches, k);
        assert(rest[j] == talks[j]);
        assert(all_changes(talks, branches)[k] == below[k]);
        j
    } else {
        let own = talks.last().changes(branches[last]);
        assert(all_changes(talks, branches)[k] == own[k - below.len()]);
        last
    }
}

proof fn lemma_change_in(
    talks: Seq<BranchTalk>,
    branches: Seq<PoolBranchView>,
    j: int,
    c: ChangeView,
)
    requires
        0 <= j < talks.len(),
        talks[j].changes(branches[j]).contains(c),
    ensures
        all_changes(talks, branches).contains(c),
    decreases talks.len(),
{
    let rest = talks.drop_last();
    let below = all_changes(rest, branches);
    let all = all_changes(talks, branches);
    if j < rest.len() {
        assert(rest[j] == talks[j]);
        lemma_change_in(rest, branches, j, c);
        let k = choose|k: int| 0 <= k < below.len() && below[k] == c;
        assert(all[k] == c);
    } else {
        let own = talks.last().changes(branches[j]);
        let k = choose|k: int| 0 <= k < own.len() && own[k] == c;
        assert(all[below.len() + k] == c);
    }
}

proof fn lemma_merged_of(talks: Seq<BranchTalk>, branches: Seq<PoolBranchView>, k: int) -> (j: int)
    requires
        0 <= k < all_merged(talks, branches).len(),
    ensures
        0 <= j < talks.len(),
        talks[j].merged(branches[j]).contains(all_merged(talks, branches)[k]),
    decreases talks.len(),
{
    let rest = talks.drop_last();
    let below = all_merged(rest, branches);
    let last = talks.len() - 1;
    if k < below.len() {
        let j = lemma_merged_of(rest, branches, k);
        assert(rest[j] == talks[j]);
        assert(all_merged(talks, branches)[k] == below[k]);
        j
    } else {
        let own = talks.last().merged(branches[last]);
        assert(all_merged(talks, branches)[k] == own[k - below.len()]);
        last
    }
}

proof fn lemma_merged_in(
    talks: Seq<BranchTalk>,
    branches: Seq<PoolBranchView>,
    j: int,
    name: Seq<char>,
)
    requires
        0 <= j < talks.len(),
        talks[j].merged(branches[j]).contains(name),
    ensures
        all_merged(talks, branches).contains(name),
    decreases talks.len(),
{
    let rest = talks.drop_last();
    let below = all_merged(rest, branches);
    let all = all_merged(talks, branches);
    if j < rest.len() {
        assert(rest[j] == talks[j]);
        lemma_merged_in(rest, branches, j, name);
        let k = choose|k: int| 0 <= k < below.len() && below[k] == name;
        assert(all[k] == name);
    } else {
        let own = talks.last().merged(branches[j]);
        let k = choose|k: int| 0 <= k < own.len() && own[k] == name;
        assert(all[below.len() + k] == name);
    }
}

/// Whether one of the branches has this name and was merged meanwhile.
pub open spec fn newly_marked(
    name: Seq<char>,
    was: Seq<PoolBranchView>,
    is: Seq<PoolBranchView>,
) -> bool {
    exists|j: int|
        0 <= j < was.len() && was[j].branch == name && !marked(was[j]) && marked(#[trigger] is[j])
}

/// Whether what is told holds of one of the branches.
pub open spec fn holds_of_one(
    c: ChangeView,
    was: Seq<PoolBranchView>,
    is: Seq<PoolBranchView>,
) -> bool {
    exists|j: int| 0 <= j < was.len() && #[trigger] holds(c, was[j], is[j])
}

/// The report on a pool agrees with what became of its branches: everything in
/// it holds of one of them, and whatever is new of a pull request or a base is in
/// it. The time is recorded exactly where the refresh went through.
#[verifier::rlimit(40)]
pub proof fn law_pool_report_agrees(
    talks: Seq<BranchTalk>,
    before: PoolFileView,
    index: int,
    now: Seq<char>,
    after: PoolFileView,
    r: Result<PoolRefreshReport, StackError>,
)
    requires
        refreshes(talks, before, index, now, after, r),
        0 <= index < before.pools.len(),
    ensures
        ({
            let was = before.pools[index].branches;
            let is = after.pools[index].branches;
            &&& is.len() == was.len()
            &&& r matches Ok(report) ==> {
                &&& forall|k: int|
                    0 <= k < report.changes@.len() ==> holds_of_one(
                        (#[trigger] report.changes@[k])@,
                        was,
                        is,
                    )
                &&& forall|j: int|
                    0 <= j < was.len() ==> reported(
                        was[j],
                        #[trigger] is[j],
                        change_views(report.changes@),
                    )
                &&& forall|j: int|
                    0 <= j < was.len() && marked(#[trigger] is[j]) && !marked(was[j])
                        ==> text::views(report.newly_merged_branches@).contains(was[j].branch)
                &&& forall|k: int|
                    0 <= k < report.newly_merged_branches@.len() ==> newly_marked(
                        (#[trigger] report.newly_merged_branches@[k])@,
                        was,
                        is,
                    )
                &&& after.pools[index].last_refreshed_at == Some(now)
            }
            &&& r is Err ==> after.pools[index].last_refreshed_at
                == before.pools[index].last_refreshed_at
            &&& after.pools[index].name == before.pools[index].name && after.pools[index].trunk
                == before.pools[index].trunk
            &&& forall|p: int|
                0 <= p < before.pools.len() && p != index ==> #[trigger] after.pools[p]
                    == before.pools[p]
        }),
{
    let was = before.pools[index].branches;
    let is = after.pools[index].branches;
    if let Ok(report) = r {
        let views = change_views(report.changes@);
        assert(views.len() == report.changes@.len());
        assert forall|j: int| 0 <= j < was.len() implies (#[trigger] talks[j]).complete(was[j])
            && talks[j].failed(was[j]) is None && is[j] == talks[j].result(was[j]) by {
            if j == talks.len() - 1 {
                assert(talks[j] == talks.last());
            }
        }
        assert forall|k: int| 0 <= k < report.changes@.len() implies holds_of_one(
            (#[trigger] report.changes@[k])@,
            was,
            is,
        ) by {
            assert(views[k] == report.changes@[k]@);
            let j = lemma_change_of(talks, was, k);
            assert(talks[j].complete(was[j]));
            law_report_agrees_with_record(talks[j], was[j]);
            let own = talks[j].changes(was[j]);
            let m = choose|m: int| 0 <= m < own.len() && own[m] == views[k];
            assert(holds(own[m], was[j], is[j]));
        }
        assert forall|j: int| 0 <= j < was.len() implies reported(
            was[j],
            #[trigger] is[j],
            views,
        ) by {
            assert(talks[j].complete(was[j]));
            law_record_agrees_with_report(talks[j], was[j]);
            let own = talks[j].changes(was[j]);
            assert forall|c: ChangeView| #[trigger] own.contains(c) implies views.contains(c) by {
                lemma_change_in(talks, was, j, c);
            }
        }
        let names = text::views(report.newly_merged_branches@);
        assert(names.len() == report.newly_merged_branches@.len());
        assert forall|j: int|
            0 <= j < was.len() && marked(#[trigger] is[j]) && !marked(was[j]) implies names.contains(
            was[j].branch,
        ) by {
            assert(talks[j].complete(was[j]));
            law_report_agrees_with_record(talks[j], was[j]);
            assert(talks[j].merged(was[j])[0] == was[j].branch);
            lemma_merged_in(talks, was, j, was[j].branch);
        }
        assert forall|k: int| 0 <= k < report.newly_merged_branches@.len() implies newly_marked(
            (#[trigger] report.newly_merged_branches@[k])@,
            was,
            is,
        ) by {
            assert(names[k] == report.newly_merged_branches@[k]@);
            let j = lemma_merged_of(talks, was, k);
            assert(talks[j].complete(was[j]));
            law_report_agrees_with_record(talks[j], was[j]);
            assert(was[j].branch == names[k]);
            assert(marked(is[j]));
        }
    }
}

/// A line of the report holds what it is made of.
proof fn lemma_report_line(
    glyph: Seq<char>,
    branch: Seq<char>,
    number: u64,
    message: Seq<char>,
    on: bool,
)
    ensures
        text::has_part(report_line(glyph, branch, number, message, on), branch),
        text::has_part(
            report_line(glyph, branch, number, message, on),
            "#"@ + text::decimal(number as nat),
        ),
        forall|part: Seq<char>| #[trigger]
            text::has_part(message, part) ==> text::has_part(
                report_line(glyph, branch, number, message, on),
                part,
            ),
{
    let hash = "#"@ + text::decimal(number as nat);
    let shown = style::secondary_of(hash, on);
    style::law_styled_holds_text(hash, "38;5;250"@, on);
    text::lemma_part_whole(branch);
    let a = "  "@ + glyph;
    assert(report_line(glyph, branch, number, message, on) == a + " "@ + branch + "  "@ + shown
        + "  "@ + message);
    text::lemma_part_right(a + " "@, branch, branch);
    text::lemma_part_left(a + " "@ + branch, "  "@, branch);
    text::lemma_part_left(a + " "@ + branch + "  "@, shown, branch);
    text::lemma_part_right(a + " "@ + branch + "  "@, shown, hash);
    let most = a + " "@ + branch + "  "@ + shown;
    text::lemma_part_left(most, "  "@, branch);
    text::lemma_part_left(most, "  "@, hash);
    text::lemma_part_left(most + "  "@, message, branch);
    text::lemma_part_left(most + "  "@, message, hash);
    assert forall|part: Seq<char>| #[trigger] text::has_part(message, part) implies text::has_part(
        report_line(glyph, branch, number, message, on),
        part,
    ) by {
        text::lemma_part_right(most + "  "@, message, part);
    }
}

/// The number that a change is about, and the words that it is told in.
pub open spec fn worded(kind: KindView, part: Seq<char>) -> bool {
    match kind {
        KindView::PrDiscovered { number } => part == "#"@ + text::decimal(number as nat) || part
            == "(PR discovered)"@,
        KindView::Merged { number } => part == "#"@ + text::decimal(number as nat) || part
            == "merged"@,
        KindView::NewComments { number, new, total } => part == "#"@ + text::decimal(
            number as nat,
        ) || part == text::decimal(new as nat) + " new comment"@ + (if new == 1 {
            ""@
        } else {
            "s"@
        }) + " ("@ + text::decimal(total as nat) + " total)"@,
        KindView::MergeableChanged { number, mergeable } => part == "#"@ + text::decimal(
            number as nat,
        ) || (mergeable == Some(false) && part == "now conflicts with trunk"@) || (mergeable
            == Some(true) && part == "cleanly mergeable"@),
        KindView::Reparented { from, to } => part == from || part == to,
    }
}

/// The report tells every change with its branch, the number of its pull request
/// and what it is.
#[verifier::rlimit(40)]
pub proof fn law_change_is_told(
    c: ChangeView,
    pool: PoolView,
    on: bool,
    err: bool,
    part: Seq<char>,
)
    requires
        worded(c.kind, part),
    ensures
        change_lines(c, pool, on, err).len() > 0,
        text::has_part(change_lines(c, pool, on, err)[0], c.branch),
        text::has_part(change_lines(c, pool, on, err)[0], part),
{
    match c.kind {
        KindView::PrDiscovered { number } => {
            let m = style::dim_of("(PR discovered)"@, on);
            style::law_styled_holds_text("(PR discovered)"@, "38;5;244"@, on);
            lemma_report_line(style::ok_of("●"@, on), c.branch, number, m, on);
        },
        KindView::Merged { number } => {
            let m = style::merged_of("merged"@, on);
            style::law_styled_holds_text("merged"@, "38;5;246"@, on);
            lemma_report_line(style::merged_of("✓"@, on), c.branch, number, m, on);
        },
        KindView::NewComments { number, new, total } => {
            let words = comments_text(new, total);
            let m = style::accent_of(words, on);
            style::law_styled_holds_text(words, "1;38;5;81"@, on);
            lemma_report_line(style::accent_of("✉"@, on), c.branch, number, m, on);
        },
        KindView::MergeableChanged { number, mergeable } => {
            style::law_styled_holds_text("now conflicts with trunk"@, "38;5;215"@, on);
            style::law_styled_holds_text("cleanly mergeable"@, "38;5;108"@, on);
            lemma_report_line(
                style::warn_of("⚠"@, on),
                c.branch,
                number,
                style::warn_of("now conflicts with trunk"@, on),
                on,
            );
            lemma_report_line(
                style::ok_of("●"@, on),
                c.branch,
                number,
                style::ok_of("cleanly mergeable"@, on),
                on,
            );
            lemma_report_line(
                style::dim_of("○"@, on),
                c.branch,
                number,
                style::dim_of("mergeable state unknown"@, on),
                on,
            );
        },
        KindView::Reparented { from, to } => {
            let a = "  "@ + style::accent_of("⇡"@, on) + " "@;
            let f = style::secondary_of(from, on);
            let t = style::secondary_of(to, on);
            let end = style::dim_of("(base merged; reparented)"@, on);
            style::law_styled_holds_text(from, "38;5;250"@, on);
            style::law_styled_holds_text(to, "38;5;250"@, on);
            text::lemma_part_whole(c.branch);
            text::lemma_part_right(a, c.branch, c.branch);
            text::lemma_part_left(a + c.branch, "  "@, c.branch);
            let b = a + c.branch + "  "@;
            text::lemma_part_left(b, f, c.branch);
            text::lemma_part_right(b, f, from);
            text::lemma_part_left(b + f, " → "@, c.branch);
            text::lemma_part_left(b + f, " → "@, from);
            let d = b + f + " → "@;
            text::lemma_part_left(d, t, c.branch);
            text::lemma_part_left(d, t, from);
            text::lemma_part_right(d, t, to);
            text::lemma_part_left(d + t, " "@, c.branch);
            text::lemma_part_left(d + t, " "@, from);
            text::lemma_part_left(d + t, " "@, to);
            text::lemma_part_left(d + t + " "@, end, c.branch);
            text::lemma_part_left(d + t + " "@, end, from);
            text::lemma_part_left(d + t + " "@, end, to);
        },
    }
}

/// A walk asks for five bases at the most, and for that many where each was merged
/// into another.
pub proof fn law_walk_asks_five_times(talk: BranchTalk, b: PoolBranchView)
    requires
        talk.complete(b),
    ensures
        talk.events().len() <= 1 + 5,
        talk.events().len() > 1 && (talk.events().last() matches HubEvent::FindByHead {
            branch,
            reply: Ok(Some(p)),
        } && p.state == PrState::Merged && p.base_ref@ != branch) ==> talk.events().len() == 1 + 5,
{
    if let Some(base) = talk.walk_from(b) {
        law_walk_is_bounded(base, MAX_HOPS as nat, talk.walk);
        law_walk_follows_merged(base, MAX_HOPS as nat, talk.walk);
        let last = talk.walk.len() - 1;
        assert(talk.events().last() == talk.walk[last]);
    }
}

/// The report tells every change, in lines of its own.
pub proof fn law_report_tells_every_change(
    changes: Seq<ChangeView>,
    pool: PoolView,
    on: bool,
    err: bool,
    k: int,
    part: Seq<char>,
) -> (l: int)
    requires
        0 <= k < changes.len(),
        worded(changes[k].kind, part),
    ensures
        0 < l < report_text(changes, pool, on, err).len(),
        text::has_part(report_text(changes, pool, on, err)[l], changes[k].branch),
        text::has_part(report_text(changes, pool, on, err)[l], part),
{
    let l = lemma_changes_told(changes, pool, on, err, k, part);
    let lines = report_text(changes, pool, on, err);
    assert(lines[l + 1] == changes_lines(changes, pool, on, err)[l]);
    l + 1
}

proof fn lemma_changes_told(
    changes: Seq<ChangeView>,
    pool: PoolView,
    on: bool,
    err: bool,
    k: int,
    part: Seq<char>,
) -> (l: int)
    requires
        0 <= k < changes.len(),
        worded(changes[k].kind, part),
    ensures
        0 <= l < changes_lines(changes, pool, on, err).len(),
        text::has_part(changes_lines(changes, pool, on, err)[l], changes[k].branch),
        text::has_part(changes_lines(changes, pool, on, err)[l], part),
    decreases changes.len(),
{
    let rest = changes.drop_last();
    let below = changes_lines(rest, pool, on, err);
    let all = changes_lines(changes, pool, on, err);
    if k < rest.len() {
        assert(rest[k] == changes[k]);
        let l = lemma_changes_told(rest, pool, on, err, k, part);
        assert(all[l] == below[l]);
        l
    } else {
        law_change_is_told(changes[k], pool, on, err, part);
        let l = below.len() as int;
        assert(all[l] == change_lines(changes[k], pool, on, err)[0]);
        l
    }
}

/// What was asked of a branch is in the whole.
pub proof fn lemma_event_in(talks: Seq<BranchTalk>, j: int, i: int) -> (l: int)
    requires
        0 <= j < talks.len(),
        0 <= i < talks[j].events().len(),
    ensures
        0 <= l < all_events(talks).len(),
        all_events(talks)[l] == talks[j].events()[i],
    decreases talks.len(),
{
    let rest = talks.drop_last();
    let below = all_events(rest);
    if j < rest.len() {
        assert(rest[j] == talks[j]);
        let l = lemma_event_in(rest, j, i);
        assert(all_events(talks)[l] == below[l]);
        l
    } else {
        let l = below.len() + i;
        assert(all_events(talks)[l] == talks.last().events()[i]);
        l
    }
}

} // verus!
