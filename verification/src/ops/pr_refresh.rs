//! Refresh the stored pull-request state of stacks against GitHub.
//!
//! Two passes per stack. *Discovery* asks, for each branch without a recorded
//! pull request, whether one has that branch as its head, and records it; this
//! catches pull requests opened elsewhere. *Refresh* asks for the current
//! state of each recorded pull request. Nothing is saved here.

use vstd::prelude::*;

use crate::domain::error::{Fault, StackError};
use crate::domain::stack::{
    branch_views, stack_views, Branch, BranchView, PullRequest, PullRequestView, StackFile,
    StackFileView, StackView,
};
use crate::github::{GitHub, HubEvent, PrInfoView, PrState};
use crate::seqs;

verus! {

/// A count, as far as it can be reported.
pub open spec fn clip(n: nat) -> usize {
    if n > usize::MAX {
        usize::MAX
    } else {
        n as usize
    }
}

/// What is recorded of a pull request that was found.
pub open spec fn recorded(info: PrInfoView) -> PullRequestView {
    PullRequestView {
        number: info.number,
        id: info.id,
        url: info.url,
        merged: info.state == PrState::Merged,
    }
}

/// The first branch at or above `i` without a recorded pull request.
pub open spec fn unknown_from(branches: Seq<BranchView>, i: int) -> int
    decreases branches.len() - i,
{
    if i >= branches.len() {
        branches.len() as int
    } else if branches[i].pull_request is None {
        i
    } else {
        unknown_from(branches, i + 1)
    }
}

/// How far discovery has come.
#[verifier::ext_equal]
pub struct Discovery {
    pub branches: Seq<BranchView>,
    /// Branches below this one are settled.
    pub next: int,
    /// Pull requests found merged.
    pub merged: nat,
    /// Whether GitHub failed to answer, which ends discovery.
    pub failed: bool,
}

impl Discovery {
    pub open spec fn start(branches: Seq<BranchView>) -> Discovery {
        Discovery { branches, next: 0, merged: 0, failed: false }
    }

    /// The branch to ask about next.
    pub open spec fn at(self) -> int {
        unknown_from(self.branches, self.next)
    }

    pub open spec fn done(self) -> bool {
        self.failed || self.at() >= self.branches.len()
    }

    /// Whether this is the question to ask now.
    pub open spec fn asks(self, e: HubEvent) -> bool {
        &&& !self.done()
        &&& e matches HubEvent::FindByHead { branch, .. } && branch == self.branches[self.at()].branch
    }

    /// What is known once it is answered.
    pub open spec fn told(self, e: HubEvent) -> Discovery {
        match e {
            HubEvent::FindByHead { reply: Ok(Some(info)), .. } => Discovery {
                branches: self.branches.update(
                    self.at(),
                    BranchView {
                        pull_request: Some(recorded(info@)),
                        ..self.branches[self.at()]
                    },
                ),
                next: self.at() + 1,
                merged: if info@.state == PrState::Merged {
                    self.merged + 1
                } else {
                    self.merged
                },
                ..self
            },
            HubEvent::FindByHead { reply: Ok(None), .. } => Discovery {
                next: self.at() + 1,
                ..self
            },
            _ => Discovery { failed: true, ..self },
        }
    }

    /// What is known after these answers.
    pub open spec fn after(self, events: Seq<HubEvent>) -> Discovery
        decreases events.len(),
    {
        if events.len() == 0 {
            self
        } else {
            self.after(events.drop_last()).told(events.last())
        }
    }

    /// Whether each of these was the question to ask.
    pub open spec fn follows(self, events: Seq<HubEvent>) -> bool
        decreases events.len(),
    {
        events.len() > 0 ==> self.follows(events.drop_last()) && self.after(
            events.drop_last(),
        ).asks(events.last())
    }
}

/// The numbers of the recorded pull requests, in stack order.
pub open spec fn known_numbers(branches: Seq<BranchView>) -> Seq<u64>
    decreases branches.len(),
{
    if branches.len() == 0 {
        Seq::empty()
    } else {
        match branches.last().pull_request {
            Some(p) => known_numbers(branches.drop_last()).push(p.number),
            None => known_numbers(branches.drop_last()),
        }
    }
}

/// The branches whose recorded pull request has this number.
pub open spec fn having(number: u64) -> spec_fn(BranchView) -> bool {
    |b: BranchView| b.pull_request matches Some(p) && p.number == number
}

/// A branch whose recorded pull request has just been looked up.
pub open spec fn brought_up(b: BranchView, info: PrInfoView) -> BranchView {
    BranchView {
        pull_request: Some(
            PullRequestView {
                number: b.pull_request->0.number,
                id: info.id,
                url: info.url,
                merged: info.state == PrState::Merged,
            },
        ),
        ..b
    }
}

/// How far the refresh of recorded pull requests has come.
#[verifier::ext_equal]
pub struct Refresh {
    pub branches: Seq<BranchView>,
    pub numbers: Seq<u64>,
    pub next: int,
    /// Pull requests that turned out to have been merged since.
    pub merged: nat,
    pub failed: Option<Fault>,
}

impl Refresh {
    pub open spec fn start(branches: Seq<BranchView>) -> Refresh {
        Refresh {
            branches,
            numbers: known_numbers(branches),
            next: 0,
            merged: 0,
            failed: None,
        }
    }

    pub open spec fn done(self) -> bool {
        self.failed is Some || self.next >= self.numbers.len()
    }

    pub open spec fn asks(self, e: HubEvent) -> bool {
        &&& !self.done()
        &&& e matches HubEvent::View { number, .. } && number == self.numbers[self.next]
    }

    /// The branch that the number asked about stands for.
    pub open spec fn subject(self) -> Option<int> {
        seqs::first_where(self.branches, having(self.numbers[self.next]))
    }

    pub open spec fn told(self, e: HubEvent) -> Refresh {
        match e {
            HubEvent::View { reply: Ok(info), .. } => match self.subject() {
                Some(k) => Refresh {
                    branches: self.branches.update(k, brought_up(self.branches[k], info@)),
                    next: self.next + 1,
                    merged: if !self.branches[k].is_merged() && info@.state == PrState::Merged {
                        self.merged + 1
                    } else {
                        self.merged
                    },
                    ..self
                },
                None => Refresh { next: self.next + 1, ..self },
            },
            HubEvent::View { reply: Err(e), .. } => Refresh { failed: Some(e@), ..self },
            _ => self,
        }
    }

    pub open spec fn after(self, events: Seq<HubEvent>) -> Refresh
        decreases events.len(),
    {
        if events.len() == 0 {
            self
        } else {
            self.after(events.drop_last()).told(events.last())
        }
    }

    pub open spec fn follows(self, events: Seq<HubEvent>) -> bool
        decreases events.len(),
    {
        events.len() > 0 ==> self.follows(events.drop_last()) && self.after(
            events.drop_last(),
        ).asks(events.last())
    }
}

/// What was asked and answered in one refresh of a stack.
pub struct StackTalk {
    pub found: Seq<HubEvent>,
    pub seen: Seq<HubEvent>,
}

impl StackTalk {
    pub open spec fn events(self) -> Seq<HubEvent> {
        self.found + self.seen
    }

    /// The state after discovery.
    pub open spec fn discovery(self, before: StackView) -> Discovery {
        Discovery::start(before.branches).after(self.found)
    }

    /// The state after the second pass.
    pub open spec fn refresh(self, before: StackView) -> Refresh {
        Refresh::start(self.discovery(before).branches).after(self.seen)
    }

    /// Whether this is a complete refresh of the stack.
    pub open spec fn complete(self, before: StackView) -> bool {
        &&& Discovery::start(before.branches).follows(self.found)
        &&& self.discovery(before).done()
        &&& Refresh::start(self.discovery(before).branches).follows(self.seen)
        &&& self.refresh(before).done()
    }

    /// The stack afterwards. A refresh that failed leaves the timestamp.
    pub open spec fn result(self, before: StackView, now: Seq<char>) -> StackView {
        StackView {
            branches: self.refresh(before).branches,
            last_refreshed_at: if self.refresh(before).failed is Some {
                before.last_refreshed_at
            } else {
                Some(now)
            },
            ..before
        }
    }

    /// How many pull requests went from not merged to merged.
    pub open spec fn merged(self, before: StackView) -> nat {
        self.discovery(before).merged + self.refresh(before).merged
    }
}

fn discover<H: GitHub>(gh: &mut H, branches: &mut Vec<Branch>) -> (r: (usize, Ghost<Seq<HubEvent>>))
    ensures
        final(gh).history() == old(gh).history() + r.1@,
        Discovery::start(branch_views(old(branches)@)).follows(r.1@),
        Discovery::start(branch_views(old(branches)@)).after(r.1@).done(),
        branch_views(final(branches)@) == Discovery::start(branch_views(old(branches)@)).after(
            r.1@,
        ).branches,
        r.0 == clip(Discovery::start(branch_views(old(branches)@)).after(r.1@).merged),
{
    let ghost start = Discovery::start(branch_views(branches@));
    let ghost mut events: Seq<HubEvent> = Seq::empty();
    let mut merged: usize = 0;
    let mut i: usize = 0;
    let mut failed = false;
    assert(gh.history() =~= old(gh).history() + events);
    while i < branches.len() && !failed
        invariant
            i <= branches.len(),
            gh.history() == old(gh).history() + events,
            start.follows(events),
            start.after(events).branches == branch_views(branches@),
            start.after(events).failed == failed,
            !failed ==> start.after(events).at() == unknown_from(branch_views(branches@), i as int),
            merged == clip(start.after(events).merged),
        decreases branches.len() - i, if failed {
            0int
        } else {
            1int
        },
    {
        let ghost all = branch_views(branches@);
        let ghost state = start.after(events);
        assert(all[i as int] == branches@[i as int]@);
        if branches[i].pull_request.is_none() {
            let ghost h = gh.history();
            let name = branches[i].branch.clone();
            let reply = gh.find_pr_by_head(name.as_str());
            let ghost e = HubEvent::FindByHead { branch: name@, reply };
            proof {
                assert(events.push(e).drop_last() =~= events);
                assert(gh.history() =~= old(gh).history() + events.push(e));
                events = events.push(e);
            }
            match reply {
                Ok(Some(info)) => {
                    let is_merged = info.state == PrState::Merged;
                    let ghost model = info@;
                    branches[i].pull_request = Some(
                        PullRequest {
                            number: info.number,
                            id: info.id,
                            url: info.url,
                            merged: is_merged,
                        },
                    );
                    assert(branch_views(branches@) =~= all.update(
                        i as int,
                        BranchView { pull_request: Some(recorded(model)), ..all[i as int] },
                    ));
                    if is_merged {
                        merged = merged.saturating_add(1);
                    }
                    i = i + 1;
                },
                Ok(None) => {
                    i = i + 1;
                },
                Err(_) => {
                    failed = true;
                },
            }
        } else {
            i = i + 1;
        }
    }
    (merged, Ghost(events))
}

fn numbers_of(branches: &Vec<Branch>) -> (r: Vec<u64>)
    ensures
        r@ == known_numbers(branch_views(branches@)),
{
    let ghost all = branch_views(branches@);
    let mut out: Vec<u64> = Vec::new();
    let mut i: usize = 0;
    while i < branches.len()
        invariant
            i <= branches.len(),
            all == branch_views(branches@),
            out@ == known_numbers(all.take(i as int)),
        decreases branches.len() - i,
    {
        assert(all.take(i + 1).drop_last() =~= all.take(i as int));
        assert(all[i as int] == branches@[i as int]@);
        if let Some(p) = &branches[i].pull_request {
            out.push(p.number);
        }
        i = i + 1;
    }
    assert(all.take(branches.len() as int) =~= all);
    out
}

fn find_number(branches: &Vec<Branch>, number: u64) -> (r: Option<usize>)
    ensures
        match r {
            Some(k) => seqs::first_where(branch_views(branches@), having(number)) == Some(k as int)
                && k < branches@.len(),
            None => seqs::first_where(branch_views(branches@), having(number)) is None,
        },
{
    let ghost all = branch_views(branches@);
    let mut i: usize = 0;
    while i < branches.len()
        invariant
            i <= branches.len(),
            all == branch_views(branches@),
            forall|j: int| 0 <= j < i ==> !having(number)(#[trigger] all[j]),
        decreases branches.len() - i,
    {
        assert(all[i as int] == branches@[i as int]@);
        if let Some(p) = &branches[i].pull_request {
            if p.number == number {
                proof {
                    seqs::lemma_first_where(all, having(number), i as int);
                }
                return Some(i);
            }
        }
        i = i + 1;
    }
    proof {
        seqs::lemma_first_where_none(all, having(number));
    }
    None
}

fn refresh_known<H: GitHub>(gh: &mut H, branches: &mut Vec<Branch>) -> (r: (
    Result<usize, StackError>,
    Ghost<Seq<HubEvent>>,
))
    ensures
        final(gh).history() == old(gh).history() + r.1@,
        Refresh::start(branch_views(old(branches)@)).follows(r.1@),
        Refresh::start(branch_views(old(branches)@)).after(r.1@).done(),
        branch_views(final(branches)@) == Refresh::start(branch_views(old(branches)@)).after(
            r.1@,
        ).branches,
        match Refresh::start(branch_views(old(branches)@)).after(r.1@).failed {
            Some(f) => r.0 matches Err(e) && e@ == f,
            None => r.0 matches Ok(n) && n == clip(
                Refresh::start(branch_views(old(branches)@)).after(r.1@).merged,
            ),
        },
{
    let ghost start = Refresh::start(branch_views(branches@));
    let ghost mut events: Seq<HubEvent> = Seq::empty();
    let numbers = numbers_of(branches);
    let mut merged: usize = 0;
    let mut i: usize = 0;
    assert(gh.history() =~= old(gh).history() + events);
    while i < numbers.len()
        invariant
            i <= numbers.len(),
            numbers@ == start.numbers,
            gh.history() == old(gh).history() + events,
            start.follows(events),
            start == Refresh::start(branch_views(old(branches)@)),
            start.after(events) == (Refresh {
                branches: branch_views(branches@),
                numbers: start.numbers,
                next: i as int,
                merged: start.after(events).merged,
                failed: None,
            }),
            merged == clip(start.after(events).merged),
        decreases numbers.len() - i,
    {
        let ghost all = branch_views(branches@);
        let reply = gh.view_pr(numbers[i]);
        let ghost e = HubEvent::View { number: numbers[i as int], reply };
        proof {
            assert(events.push(e).drop_last() =~= events);
            assert(gh.history() =~= old(gh).history() + events.push(e));
            events = events.push(e);
        }
        match reply {
            Err(err) => {
                return (Err(err), Ghost(events));
            },
            Ok(info) => {
                let ghost model = info@;
                if let Some(k) = find_number(branches, numbers[i]) {
                    proof {
                        seqs::lemma_first_where_is(all, having(numbers[i as int]));
                    }
                    assert(all[k as int] == branches@[k as int]@);
                    if let Some(pr) = branches[k].pull_request.as_mut() {
                        let was_merged = pr.merged;
                        pr.merged = info.state == PrState::Merged;
                        pr.url = info.url;
                        pr.id = info.id;
                        if !was_merged && pr.merged {
                            merged = merged.saturating_add(1);
                        }
                    }
                    assert(branch_views(branches@) =~= all.update(
                        k as int,
                        brought_up(all[k as int], model),
                    ));
                }
            },
        }
        i = i + 1;
    }
    (Ok(merged), Ghost(events))
}

/// Whether `talk` is a refresh of the stack at `index` that turns one file into
/// another and returns `r`.
pub open spec fn refreshes(
    talk: StackTalk,
    before: StackFileView,
    index: int,
    now: Seq<char>,
    after: StackFileView,
    r: Result<usize, StackError>,
) -> bool {
    let stack = before.stacks[index];
    &&& talk.complete(stack)
    &&& after == (StackFileView {
        stacks: before.stacks.update(index, talk.result(stack, now)),
        ..before
    })
    &&& match talk.refresh(stack).failed {
        Some(f) => r matches Err(e) && e@ == f,
        None => r matches Ok(n) && n == clip(talk.merged(stack)),
    }
}

/// Refresh the pull-request state of one stack. Returns how many pull requests
/// went from not merged to merged, those just discovered among them. `now` is
/// recorded as the time of the refresh. Where GitHub fails in discovery, the
/// rest of discovery is skipped; where it fails in the second pass, the error
/// is returned.
pub fn refresh_stack<H: GitHub>(
    gh: &mut H,
    file: &mut StackFile,
    stack_index: usize,
    now: &str,
) -> (r: Result<usize, StackError>)
    requires
        stack_index < old(file).stacks@.len(),
    ensures
        exists|talk: StackTalk|
            #[trigger] refreshes(talk, old(file)@, stack_index as int, now@, final(file)@, r)
                && final(gh).history() == old(gh).history() + talk.events(),
{
    let ghost all = stack_views(file.stacks@);
    let ghost before = all[stack_index as int];
    assert(before == file.stacks@[stack_index as int]@);
    let (found_merged, Ghost(found)) = discover(gh, &mut file.stacks[stack_index].branches);
    let (outcome, Ghost(seen)) = refresh_known(gh, &mut file.stacks[stack_index].branches);
    let ghost talk = StackTalk { found, seen };
    assert(gh.history() =~= old(gh).history() + talk.events());
    assert(talk.complete(before));
    match outcome {
        Err(e) => {
            assert(stack_views(file.stacks@) =~= all.update(
                stack_index as int,
                talk.result(before, now@),
            ));
            assert(refreshes(talk, old(file)@, stack_index as int, now@, file@, Err(e)));
            Err(e)
        },
        Ok(n) => {
            file.stacks[stack_index].last_refreshed_at = Some(now.to_string());
            assert(stack_views(file.stacks@) =~= all.update(
                stack_index as int,
                talk.result(before, now@),
            ));
            let total: usize = found_merged.saturating_add(n);
            assert(refreshes(talk, old(file)@, stack_index as int, now@, file@, Ok(total)));
            Ok(total)
        },
    }
}

/// What was asked and answered, stack after stack.
pub open spec fn all_events(talks: Seq<StackTalk>) -> Seq<HubEvent>
    decreases talks.len(),
{
    if talks.len() == 0 {
        Seq::empty()
    } else {
        all_events(talks.drop_last()) + talks.last().events()
    }
}

/// How many pull requests went from not merged to merged over all stacks.
pub open spec fn all_merged(talks: Seq<StackTalk>, stacks: Seq<StackView>) -> nat
    decreases talks.len(),
{
    if talks.len() == 0 {
        0
    } else {
        all_merged(talks.drop_last(), stacks) + talks.last().merged(stacks[talks.len() - 1])
    }
}

/// Whether `talks` refresh the stacks from the first on, each completely, and
/// none after one that failed.
pub open spec fn in_turn(talks: Seq<StackTalk>, stacks: Seq<StackView>) -> bool {
    &&& talks.len() <= stacks.len()
    &&& forall|i: int| 0 <= i < talks.len() ==> (#[trigger] talks[i]).complete(stacks[i])
    &&& forall|i: int|
        0 <= i < talks.len() - 1 ==> (#[trigger] talks[i]).refresh(stacks[i]).failed is None
}

/// The stacks after `talks`: those not reached are as they were.
pub open spec fn all_results(
    talks: Seq<StackTalk>,
    stacks: Seq<StackView>,
    now: Seq<char>,
) -> Seq<StackView> {
    Seq::new(
        stacks.len(),
        |i: int|
            if i < talks.len() {
                talks[i].result(stacks[i], now)
            } else {
                stacks[i]
            },
    )
}

/// Whether `talks` are a refresh of every stack that turns one file into
/// another and returns `r`.
pub open spec fn refreshes_all(
    talks: Seq<StackTalk>,
    before: StackFileView,
    now: Seq<char>,
    after: StackFileView,
    r: Result<usize, StackError>,
) -> bool {
    &&& in_turn(talks, before.stacks)
    &&& after == (StackFileView { stacks: all_results(talks, before.stacks, now), ..before })
    &&& match r {
        Ok(n) => talks.len() == before.stacks.len() && n == clip(
            all_merged(talks, before.stacks),
        ) && (talks.len() > 0 ==> talks.last().refresh(
            before.stacks[talks.len() - 1],
        ).failed is None),
        Err(e) => talks.len() > 0 && talks.last().refresh(
            before.stacks[talks.len() - 1],
        ).failed == Some(e@),
    }
}

/// Refresh every stack in the file. Returns how many pull requests went from
/// not merged to merged, or the error of the first stack that failed.
pub fn refresh_all<H: GitHub>(gh: &mut H, file: &mut StackFile, now: &str) -> (r: Result<
    usize,
    StackError,
>)
    ensures
        exists|talks: Seq<StackTalk>|
            #[trigger] refreshes_all(talks, old(file)@, now@, final(file)@, r)
                && final(gh).history() == old(gh).history() + all_events(talks),
{
    let ghost before = file@;
    let ghost mut talks: Seq<StackTalk> = Seq::empty();
    let mut total: usize = 0;
    let mut i: usize = 0;
    let n: usize = file.stacks.len();
    assert(gh.history() =~= old(gh).history() + all_events(talks));
    assert(file@.stacks =~= all_results(talks, before.stacks, now@));
    while i < n
        invariant
            i <= n,
            n == before.stacks.len(),
            file.stacks@.len() == n,
            before == old(file)@,
            talks.len() == i,
            in_turn(talks, before.stacks),
            talks.len() > 0 ==> talks.last().refresh(before.stacks[i - 1]).failed is None,
            file@ == (StackFileView {
                stacks: all_results(talks, before.stacks, now@),
                ..before
            }),
            total == clip(all_merged(talks, before.stacks)),
            gh.history() == old(gh).history() + all_events(talks),
        decreases n - i,
    {
        let ghost mid = file@;
        let ghost h = gh.history();
        let outcome = refresh_stack(gh, file, i, now);
        let ghost talk = choose|talk: StackTalk|
            #[trigger] refreshes(talk, mid, i as int, now@, file@, outcome) && gh.history() == h
                + talk.events();
        let ghost more = talks.push(talk);
        proof {
            assert(mid.stacks[i as int] == before.stacks[i as int]);
            assert(more.drop_last() =~= talks);
            assert(gh.history() =~= old(gh).history() + all_events(more));
            assert(file@.stacks =~= all_results(more, before.stacks, now@));
            assert forall|j: int| 0 <= j < more.len() implies (#[trigger] more[j]).complete(
                before.stacks[j],
            ) by {
                if j < i {
                    assert(more[j] == talks[j]);
                }
            }
            assert forall|j: int| 0 <= j < more.len() - 1 implies (#[trigger] more[j]).refresh(
                before.stacks[j],
            ).failed is None by {
                assert(more[j] == talks[j]);
            }
        }
        match outcome {
            Err(e) => {
                assert(refreshes_all(more, before, now@, file@, Err(e)));
                return Err(e);
            },
            Ok(count) => {
                total = total.saturating_add(count);
            },
        }
        proof {
            talks = more;
        }
        i = i + 1;
    }
    assert(refreshes_all(talks, before, now@, file@, Ok(total)));
    Ok(total)
}

/// A refresh only ever touches pull requests: every branch keeps its name, its
/// place, its head and its base.
pub proof fn law_refresh_keeps_branches(talk: StackTalk, before: StackView, now: Seq<char>)
    requires
        talk.complete(before),
    ensures
        talk.result(before, now).branches.len() == before.branches.len(),
        forall|i: int|
            0 <= i < before.branches.len() ==> {
                let a = #[trigger] talk.result(before, now).branches[i];
                a.branch == before.branches[i].branch && a.head == before.branches[i].head
                    && a.base == before.branches[i].base
            },
{
    lemma_discovery_keeps(Discovery::start(before.branches), talk.found);
    lemma_refresh_keeps(Refresh::start(talk.discovery(before).branches), talk.seen);
}

/// Whether two lists of branches differ in pull requests at most.
pub open spec fn same_branches(a: Seq<BranchView>, b: Seq<BranchView>) -> bool {
    &&& a.len() == b.len()
    &&& forall|i: int|
        0 <= i < a.len() ==> (#[trigger] a[i]).branch == b[i].branch && a[i].head == b[i].head
            && a[i].base == b[i].base
}

proof fn lemma_unknown_from_bounds(branches: Seq<BranchView>, i: int)
    requires
        0 <= i,
    ensures
        i <= branches.len() ==> i <= unknown_from(branches, i) <= branches.len(),
        unknown_from(branches, i) < branches.len() ==> unknown_from(branches, i) >= i
            && branches[unknown_from(branches, i)].pull_request is None,
    decreases branches.len() - i,
{
    if i < branches.len() && branches[i].pull_request is Some {
        lemma_unknown_from_bounds(branches, i + 1);
    }
}

proof fn lemma_discovery_keeps(start: Discovery, events: Seq<HubEvent>)
    requires
        start.follows(events),
        start.next >= 0,
    ensures
        same_branches(start.after(events).branches, start.branches),
        start.after(events).next >= 0,
        forall|i: int|
            0 <= i < start.branches.len() && (#[trigger] start.branches[i]).pull_request is Some
                ==> start.after(events).branches[i] == start.branches[i],
    decreases events.len(),
{
    if events.len() > 0 {
        let rest = events.drop_last();
        lemma_discovery_keeps(start, rest);
        let mid = start.after(rest);
        lemma_unknown_from_bounds(mid.branches, mid.next);
    }
}

proof fn lemma_refresh_keeps(start: Refresh, events: Seq<HubEvent>)
    requires
        start.follows(events),
    ensures
        same_branches(start.after(events).branches, start.branches),
    decreases events.len(),
{
    if events.len() > 0 {
        let rest = events.drop_last();
        lemma_refresh_keeps(start, rest);
        let mid = start.after(rest);
        seqs::lemma_first_where_is(mid.branches, having(mid.numbers[mid.next]));
    }
}

/// Discovery never replaces a pull request that is already recorded.
pub proof fn law_discovery_keeps_known(talk: StackTalk, before: StackView, i: int)
    requires
        talk.complete(before),
        0 <= i < before.branches.len(),
        before.branches[i].pull_request is Some,
    ensures
        talk.discovery(before).branches[i] == before.branches[i],
{
    lemma_discovery_keeps(Discovery::start(before.branches), talk.found);
}

/// Whether a branch is marked as merged.
pub open spec fn marked(b: BranchView) -> bool {
    b.pull_request matches Some(p) && p.merged
}

/// Whether a record says what GitHub says of a pull request, under the number it
/// has.
pub open spec fn says(p: PullRequestView, info: PrInfoView) -> bool {
    p.id == info.id && p.url == info.url && p.merged == (info.state == PrState::Merged)
}

/// One answer in discovery concerns one branch that had no pull request, the one
/// asked about: it records what was found, and one more counts as merged exactly
/// where a branch became marked as merged.
pub proof fn law_discovery_records_answer(d: Discovery, e: HubEvent)
    requires
        d.next >= 0,
        d.asks(e),
    ensures
        ({
            let after = d.told(e);
            let i = d.at();
            &&& 0 <= i < d.branches.len() && after.branches.len() == d.branches.len()
            &&& d.branches[i].pull_request is None
            &&& e matches HubEvent::FindByHead { branch, reply }
            &&& branch == d.branches[i].branch
            &&& match reply {
                Ok(Some(info)) => after.branches[i].pull_request matches Some(p) && p.number
                    == info.number && says(p, info@) && !after.failed,
                Ok(None) => after.branches[i].pull_request is None && !after.failed,
                Err(_) => after.branches[i].pull_request is None && after.failed,
            }
            &&& forall|j: int|
                0 <= j < d.branches.len() && j != i ==> #[trigger] after.branches[j]
                    == d.branches[j]
            &&& after.merged == d.merged + if marked(after.branches[i]) {
                1int
            } else {
                0
            }
        }),
{
    lemma_unknown_from_bounds(d.branches, d.next);
}

/// One answer in the second pass concerns one branch, whose recorded pull
/// request has the number asked about: it says what GitHub says, under the same
/// number, and one more counts as merged exactly where the branch was not marked
/// as merged before and is now.
pub proof fn law_refresh_records_answer(s: Refresh, e: HubEvent)
    requires
        s.asks(e),
        s.next >= 0,
    ensures
        ({
            let after = s.told(e);
            &&& after.branches.len() == s.branches.len()
            &&& e matches HubEvent::View { number, reply }
            &&& match reply {
                Ok(info) => {
                    &&& after.failed is None
                    &&& s.branches == after.branches || exists|i: int|
                        0 <= i < s.branches.len() && {
                            &&& (#[trigger] s.branches[i]).pull_request matches Some(was)
                                && was.number == number
                            &&& after.branches[i].pull_request matches Some(p) && p.number == number
                                && says(p, info@)
                            &&& after.merged == s.merged + if !marked(s.branches[i]) && marked(
                                after.branches[i],
                            ) {
                                1int
                            } else {
                                0
                            }
                            &&& forall|j: int|
                                0 <= j < s.branches.len() && j != i ==> #[trigger] after.branches[j]
                                    == s.branches[j]
                        }
                    &&& (exists|i: int|
                        0 <= i < s.branches.len() && ((
                        #[trigger] s.branches[i]).pull_request matches Some(was) && was.number
                            == number)) ==> exists|i: int|
                        0 <= i < s.branches.len() && (
                        #[trigger] after.branches[i].pull_request matches Some(p) && p.number
                            == number && says(p, info@))
                },
                Err(f) => after.failed == Some(f@) && after.branches == s.branches && after.merged
                    == s.merged,
            }
        }),
{
    let number = s.numbers[s.next];
    seqs::lemma_first_where_is(s.branches, having(number));
    if let HubEvent::View { reply: Ok(info), .. } = e {
        if let Some(k) = s.subject() {
            assert(having(number)(s.branches[k]));
            assert(s.told(e).branches[k] == brought_up(s.branches[k], info@));
        } else {
            assert forall|i: int| 0 <= i < s.branches.len() implies !((
            #[trigger] s.branches[i]).pull_request matches Some(was) && was.number == number) by {
                assert(!having(number)(s.branches[i]));
            }
        }
    }
}

/// A refresh only looks things up: it opens nothing.
pub proof fn law_refresh_only_looks(talk: StackTalk, before: StackView, i: int)
    requires
        talk.complete(before),
        0 <= i < talk.events().len(),
    ensures
        talk.events()[i] is FindByHead || talk.events()[i] is View,
{
    lemma_found_kinds(Discovery::start(before.branches), talk.found);
    lemma_seen_kinds(Refresh::start(talk.discovery(before).branches), talk.seen);
    if i < talk.found.len() {
        assert(talk.events()[i] == talk.found[i]);
    } else {
        assert(talk.events()[i] == talk.seen[i - talk.found.len()]);
    }
}

proof fn lemma_found_kinds(start: Discovery, events: Seq<HubEvent>)
    requires
        start.follows(events),
    ensures
        forall|i: int| 0 <= i < events.len() ==> #[trigger] events[i] is FindByHead,
    decreases events.len(),
{
    if events.len() > 0 {
        let rest = events.drop_last();
        lemma_found_kinds(start, rest);
        assert forall|i: int| 0 <= i < events.len() implies #[trigger] events[i] is FindByHead by {
            if i < rest.len() {
                assert(events[i] == rest[i]);
            }
        }
    }
}

proof fn lemma_seen_kinds(start: Refresh, events: Seq<HubEvent>)
    requires
        start.follows(events),
    ensures
        forall|i: int| 0 <= i < events.len() ==> #[trigger] events[i] is View,
    decreases events.len(),
{
    if events.len() > 0 {
        let rest = events.drop_last();
        lemma_seen_kinds(start, rest);
        assert forall|i: int| 0 <= i < events.len() implies #[trigger] events[i] is View by {
            if i < rest.len() {
                assert(events[i] == rest[i]);
            }
        }
    }
}

proof fn lemma_numbers_known(branches: Seq<BranchView>, i: int)
    requires
        0 <= i < branches.len(),
        branches[i].pull_request is Some,
    ensures
        known_numbers(branches).contains(branches[i].pull_request->0.number),
    decreases branches.len(),
{
    let n = branches[i].pull_request->0.number;
    let all = known_numbers(branches);
    if i == branches.len() - 1 {
        assert(all[all.len() - 1] == n);
    } else {
        let rest = branches.drop_last();
        lemma_numbers_known(rest, i);
        let few = known_numbers(rest);
        let k = choose|k: int| 0 <= k < few.len() && few[k] == n;
        assert(all[k] == n);
    }
}

/// How the second pass leaves things, after its first answers.
#[verifier::rlimit(40)]
proof fn lemma_seen_so_far(start: Refresh, events: Seq<HubEvent>)
    requires
        start.follows(events),
        start.next == 0,
        start.failed is None,
        forall|i: int, j: int|
            0 <= i < j < start.branches.len() && (#[trigger] start.branches[i]).pull_request is Some
                && (#[trigger] start.branches[j]).pull_request is Some
                ==> start.branches[i].pull_request->0.number
                != start.branches[j].pull_request->0.number,
    ensures
        ({
            let end = start.after(events);
            &&& end.numbers == start.numbers
            &&& end.failed is None ==> end.next == events.len()
            &&& end.branches.len() == start.branches.len()
            &&& forall|i: int|
                0 <= i < start.branches.len() ==> (
                #[trigger] start.branches[i].pull_request is Some)
                    == end.branches[i].pull_request is Some
            &&& forall|i: int|
                0 <= i < start.branches.len() && (
                #[trigger] start.branches[i]).pull_request is Some
                    ==> end.branches[i].pull_request->0.number
                    == start.branches[i].pull_request->0.number
            &&& forall|k: int, i: int|
                #![trigger events[k], start.branches[i]]
                0 <= k < events.len() && 0 <= i < start.branches.len()
                    && start.branches[i].pull_request is Some && (
                events[k] matches HubEvent::View { number, reply: Ok(_) } && number
                    == start.branches[i].pull_request->0.number) ==> exists|m: int|
                    0 <= m < events.len() && (
                    #[trigger] events[m] matches HubEvent::View { number, reply: Ok(info) } && number
                        == start.branches[i].pull_request->0.number && says(
                        end.branches[i].pull_request->0,
                        info@,
                    ))
            &&& end.failed is None ==> forall|k: int|
                0 <= k < events.len() ==> (
                #[trigger] events[k] matches HubEvent::View { number, reply: Ok(_) } && number
                    == start.numbers[k])
        }),
    decreases events.len(),
{
    if events.len() > 0 {
        let rest = events.drop_last();
        lemma_seen_so_far(start, rest);
        let mid = start.after(rest);
        let end = start.after(events);
        let e = events.last();
        let at = mid.numbers[mid.next];
        seqs::lemma_first_where_is(mid.branches, having(at));
        assert forall|k: int, i: int|
            #![trigger events[k], start.branches[i]]
            0 <= k < events.len() && 0 <= i < start.branches.len()
                && start.branches[i].pull_request is Some && (
            events[k] matches HubEvent::View { number, reply: Ok(_) } && number
                == start.branches[i].pull_request->0.number) implies exists|m: int|
            0 <= m < events.len() && (
            #[trigger] events[m] matches HubEvent::View { number, reply: Ok(info) } && number
                == start.branches[i].pull_request->0.number && says(
                end.branches[i].pull_request->0,
                info@,
            )) by {
            let n = start.branches[i].pull_request->0.number;
            if end.branches[i] == mid.branches[i] && k < rest.len() {
                assert(rest[k] == events[k]);
                let m = choose|m: int|
                    0 <= m < rest.len() && (
                    #[trigger] rest[m] matches HubEvent::View { number, reply: Ok(info) } && number
                        == n && says(mid.branches[i].pull_request->0, info@));
                assert(events[m] == rest[m]);
            } else {
                let last = events.len() - 1;
                assert(events[last] == e);
                assert(having(n)(mid.branches[i]));
                if let Some(j) = mid.subject() {
                    assert(having(at)(mid.branches[j]));
                    assert(start.branches[j].pull_request is Some);
                    if j != i && n == at {
                        assert(start.branches[i].pull_request->0.number
                            == start.branches[j].pull_request->0.number);
                        assert(false);
                    }
                }
            }
        }
        assert forall|k: int| 0 <= k < events.len() && end.failed is None implies (
        #[trigger] events[k] matches HubEvent::View { number, reply: Ok(_) } && number
            == start.numbers[k]) by {
            if k < rest.len() {
                assert(events[k] == rest[k]);
            }
        }
    }
}

/// After a refresh that went through, every recorded pull request says what
/// GitHub said under its number, as long as no two branches share a pull
/// request. The time of the refresh is recorded; after one that failed it is as
/// it was. Nothing else of the stack, and no other stack, changes.
pub proof fn law_refreshed_says_what_github_says(
    talk: StackTalk,
    before: StackFileView,
    index: int,
    now: Seq<char>,
    after: StackFileView,
    r: Result<usize, StackError>,
)
    requires
        refreshes(talk, before, index, now, after, r),
        0 <= index < before.stacks.len(),
        ({
            let found = talk.discovery(before.stacks[index]).branches;
            forall|i: int, j: int|
                0 <= i < j < found.len() && (#[trigger] found[i]).pull_request is Some && (
                #[trigger] found[j]).pull_request is Some ==> found[i].pull_request->0.number
                    != found[j].pull_request->0.number
        }),
    ensures
        r is Ok ==> forall|i: int|
            0 <= i < after.stacks[index].branches.len() ==> ((
            #[trigger] after.stacks[index].branches[i]).pull_request matches Some(p) ==> exists|k: int|
                0 <= k < talk.events().len() && (
                #[trigger] talk.events()[k] matches HubEvent::View { number, reply: Ok(info) }
                    && number == p.number && says(p, info@))),
        after.stacks[index].last_refreshed_at == (if r is Ok {
            Some(now)
        } else {
            before.stacks[index].last_refreshed_at
        }),
        after.stacks[index].trunk == before.stacks[index].trunk,
        after.stacks[index].prefix == before.stacks[index].prefix,
        after.stacks.len() == before.stacks.len(),
        forall|s: int|
            0 <= s < before.stacks.len() && s != index ==> #[trigger] after.stacks[s]
                == before.stacks[s],
{
    let stack = before.stacks[index];
    let start = Refresh::start(talk.discovery(stack).branches);
    lemma_seen_so_far(start, talk.seen);
    let end = start.after(talk.seen);
    if r is Ok {
        assert(end.branches == after.stacks[index].branches);
        assert forall|i: int| 0 <= i < end.branches.len() implies ((
        #[trigger] end.branches[i]).pull_request matches Some(p) ==> exists|k: int|
            0 <= k < talk.events().len() && (
            #[trigger] talk.events()[k] matches HubEvent::View { number, reply: Ok(info) } && number
                == p.number && says(p, info@))) by {
            if let Some(p) = end.branches[i].pull_request {
                assert(start.branches[i].pull_request is Some);
                lemma_numbers_known(start.branches, i);
                let k = choose|k: int| 0 <= k < start.numbers.len() && start.numbers[k] == p.number;
                assert(k < talk.seen.len());
                assert(talk.seen[k] matches HubEvent::View { number, reply: Ok(_) } && number
                    == p.number);
                let m = choose|m: int|
                    0 <= m < talk.seen.len() && (
                    #[trigger] talk.seen[m] matches HubEvent::View { number, reply: Ok(info) }
                        && number == p.number && says(p, info@));
                assert(talk.events()[talk.found.len() + m] == talk.seen[m]);
            }
        }
    }
}

/// A branch that had no pull request and has one after a refresh got the one
/// that GitHub found for its name.
pub proof fn law_discovered_by_name(talk: StackTalk, before: StackView, i: int)
    requires
        talk.complete(before),
        0 <= i < before.branches.len(),
        before.branches[i].pull_request is None,
    ensures
        talk.discovery(before).branches[i].pull_request matches Some(p) ==> exists|k: int|
            0 <= k < talk.events().len() && (
            #[trigger] talk.events()[k] matches HubEvent::FindByHead { branch, reply: Ok(Some(info)) }
                && branch == before.branches[i].branch && info.number == p.number && says(p, info@)),
        !talk.discovery(before).failed && talk.discovery(before).branches[i].pull_request is None
            ==> exists|k: int|
            0 <= k < talk.events().len() && (
            #[trigger] talk.events()[k] matches HubEvent::FindByHead { branch, reply: Ok(None) }
                && branch == before.branches[i].branch),
{
    let start = Discovery::start(before.branches);
    lemma_found_so_far(start, talk.found, i);
    let end = start.after(talk.found);
    if let Some(p) = end.branches[i].pull_request {
        let k = choose|k: int|
            0 <= k < talk.found.len() && (
            #[trigger] talk.found[k] matches HubEvent::FindByHead { branch, reply: Ok(Some(info)) }
                && branch == before.branches[i].branch && info.number == p.number && says(p, info@));
        assert(talk.events()[k] == talk.found[k]);
    } else if !end.failed {
        lemma_discovery_keeps(start, talk.found);
        if end.next <= i {
            lemma_unknown_from_first(end.branches, end.next, i);
        }
        let k = choose|k: int|
            0 <= k < talk.found.len() && (
            #[trigger] talk.found[k] matches HubEvent::FindByHead { branch, reply: Ok(None) }
                && branch == before.branches[i].branch);
        assert(talk.events()[k] == talk.found[k]);
    }
}

proof fn lemma_unknown_from_first(branches: Seq<BranchView>, from: int, i: int)
    requires
        0 <= from <= i < branches.len(),
        branches[i].pull_request is None,
    ensures
        unknown_from(branches, from) <= i,
    decreases i - from,
{
    if from < i && branches[from].pull_request is Some {
        lemma_unknown_from_first(branches, from + 1, i);
    }
}

proof fn lemma_found_so_far(start: Discovery, events: Seq<HubEvent>, i: int)
    requires
        start.follows(events),
        start.next == 0,
        !start.failed,
        0 <= i < start.branches.len(),
        start.branches[i].pull_request is None,
    ensures
        ({
            let end = start.after(events);
            &&& end.branches.len() == start.branches.len()
            &&& end.next >= 0
            &&& end.branches[i].pull_request matches Some(p) ==> exists|k: int|
                0 <= k < events.len() && (
                #[trigger] events[k] matches HubEvent::FindByHead { branch, reply: Ok(Some(info)) }
                    && branch == start.branches[i].branch && info.number == p.number && says(
                    p,
                    info@,
                ))
            &&& end.branches[i].pull_request is None && end.next > i ==> exists|k: int|
                0 <= k < events.len() && (
                #[trigger] events[k] matches HubEvent::FindByHead { branch, reply: Ok(None) }
                    && branch == start.branches[i].branch)
        }),
    decreases events.len(),
{
    if events.len() > 0 {
        let rest = events.drop_last();
        lemma_found_so_far(start, rest, i);
        lemma_discovery_keeps(start, rest);
        let mid = start.after(rest);
        let end = start.after(events);
        lemma_unknown_from_bounds(mid.branches, mid.next);
        if mid.branches[i].pull_request is None && mid.next <= i {
            lemma_unknown_from_first(mid.branches, mid.next, i);
        }
        let last = events.len() - 1;
        assert(events[last] == events.last());
        if end.branches[i].pull_request is Some && mid.branches[i].pull_request is Some {
            let p = mid.branches[i].pull_request->0;
            let k = choose|k: int|
                0 <= k < rest.len() && (
                #[trigger] rest[k] matches HubEvent::FindByHead { branch, reply: Ok(Some(info)) }
                    && branch == start.branches[i].branch && info.number == p.number && says(
                    p,
                    info@,
                ));
            assert(events[k] == rest[k]);
        } else if end.branches[i].pull_request is None && mid.next > i {
            let k = choose|k: int|
                0 <= k < rest.len() && (
                #[trigger] rest[k] matches HubEvent::FindByHead { branch, reply: Ok(None) }
                    && branch == start.branches[i].branch);
            assert(events[k] == rest[k]);
        }
    }
}

/// How many of the first `n` branches were not merged and are.
pub open spec fn newly(was: Seq<BranchView>, is: Seq<BranchView>, n: int) -> nat
    decreases n,
{
    if n <= 0 {
        0
    } else {
        newly(was, is, n - 1) + if !marked(was[n - 1]) && marked(is[n - 1]) {
            1nat
        } else {
            0nat
        }
    }
}

proof fn lemma_newly_update(
    was: Seq<BranchView>,
    is: Seq<BranchView>,
    k: int,
    b: BranchView,
    n: int,
)
    requires
        was.len() == is.len(),
        0 <= k < is.len(),
        0 <= n <= is.len(),
        marked(is[k]) == marked(was[k]),
    ensures
        newly(was, is.update(k, b), n) == newly(was, is, n) + if k < n && !marked(was[k]) && marked(
            b,
        ) {
            1nat
        } else {
            0nat
        },
    decreases n,
{
    if n > 0 {
        lemma_newly_update(was, is, k, b, n - 1);
    }
}

proof fn lemma_newly_same(was: Seq<BranchView>, n: int)
    ensures
        newly(was, was, n) == 0,
    decreases n,
{
    if n > 0 {
        lemma_newly_same(was, n - 1);
    }
}

proof fn lemma_discovery_counts(start: Discovery, events: Seq<HubEvent>)
    requires
        start.follows(events),
        start.next == 0,
        start.merged == 0,
        !start.failed,
    ensures
        ({
            let end = start.after(events);
            &&& end.branches.len() == start.branches.len()
            &&& end.merged == newly(start.branches, end.branches, start.branches.len() as int)
            &&& forall|i: int|
                0 <= i < start.branches.len() && (
                #[trigger] end.branches[i]).pull_request is None
                    ==> start.branches[i].pull_request is None
        }),
    decreases events.len(),
{
    let n = start.branches.len() as int;
    if events.len() == 0 {
        lemma_newly_same(start.branches, n);
    } else {
        let rest = events.drop_last();
        lemma_discovery_counts(start, rest);
        lemma_discovery_keeps(start, rest);
        let mid = start.after(rest);
        let end = start.after(events);
        lemma_unknown_from_bounds(mid.branches, mid.next);
        if let HubEvent::FindByHead { reply: Ok(Some(info)), .. } = events.last() {
            let k = mid.at();
            let b = BranchView { pull_request: Some(recorded(info@)), ..mid.branches[k] };
            assert(mid.branches[k].pull_request is None);
            lemma_newly_update(start.branches, mid.branches, k, b, n);
        }
    }
}

proof fn lemma_number_of(branches: Seq<BranchView>, m: int) -> (i: int)
    requires
        0 <= m < known_numbers(branches).len(),
    ensures
        0 <= i < branches.len(),
        branches[i].pull_request matches Some(p) && p.number == known_numbers(branches)[m],
    decreases branches.len(),
{
    let rest = branches.drop_last();
    let few = known_numbers(rest);
    if m < few.len() {
        let i = lemma_number_of(rest, m);
        assert(rest[i] == branches[i]);
        assert(known_numbers(branches)[m] == few[m]);
        i
    } else {
        branches.len() - 1
    }
}

/// No two recorded pull requests have the same number.
pub open spec fn numbered_apart(branches: Seq<BranchView>) -> bool {
    forall|i: int, j: int|
        0 <= i < j < branches.len() && (#[trigger] branches[i]).pull_request is Some && (
        #[trigger] branches[j]).pull_request is Some ==> branches[i].pull_request->0.number
            != branches[j].pull_request->0.number
}

proof fn lemma_numbers_apart(branches: Seq<BranchView>)
    requires
        numbered_apart(branches),
    ensures
        forall|a: int, b: int|
            0 <= a < b < known_numbers(branches).len() ==> #[trigger] known_numbers(branches)[a]
                != #[trigger] known_numbers(branches)[b],
    decreases branches.len(),
{
    if branches.len() > 0 {
        let rest = branches.drop_last();
        assert(numbered_apart(rest)) by {
            assert forall|i: int, j: int|
                0 <= i < j < rest.len() && (#[trigger] rest[i]).pull_request is Some && (
                #[trigger] rest[j]).pull_request is Some implies rest[i].pull_request->0.number
                != rest[j].pull_request->0.number by {
                assert(rest[i] == branches[i] && rest[j] == branches[j]);
            }
        }
        lemma_numbers_apart(rest);
        let few = known_numbers(rest);
        let all = known_numbers(branches);
        assert forall|a: int, b: int| 0 <= a < b < all.len() implies #[trigger] all[a]
            != #[trigger] all[b] by {
            assert(all[a] == few[a]);
            if b < few.len() {
                assert(all[b] == few[b]);
            } else {
                let i = lemma_number_of(rest, a);
                assert(rest[i] == branches[i]);
                assert(branches[branches.len() - 1].pull_request is Some);
            }
        }
    }
}

#[verifier::rlimit(40)]
proof fn lemma_refresh_counts(start: Refresh, events: Seq<HubEvent>)
    requires
        start.follows(events),
        start.next == 0,
        start.merged == 0,
        start.failed is None,
        start.numbers == known_numbers(start.branches),
        numbered_apart(start.branches),
    ensures
        ({
            let end = start.after(events);
            &&& end.numbers == start.numbers
            &&& 0 <= end.next
            &&& end.branches.len() == start.branches.len()
            &&& end.merged == newly(start.branches, end.branches, start.branches.len() as int)
            &&& forall|i: int|
                0 <= i < start.branches.len() ==> #[trigger] end.branches[i] == start.branches[i]
                    || (start.branches[i].pull_request is Some && exists|m: int|
                    0 <= m < end.next && m < start.numbers.len() && #[trigger] start.numbers[m]
                        == start.branches[i].pull_request->0.number)
            &&& forall|i: int|
                0 <= i < start.branches.len() ==> (
                #[trigger] end.branches[i].pull_request is Some)
                    == start.branches[i].pull_request is Some && (
                end.branches[i].pull_request is Some ==> end.branches[i].pull_request->0.number
                    == start.branches[i].pull_request->0.number)
        }),
    decreases events.len(),
{
    let n = start.branches.len() as int;
    if events.len() == 0 {
        lemma_newly_same(start.branches, n);
    } else {
        let rest = events.drop_last();
        lemma_refresh_counts(start, rest);
        lemma_numbers_apart(start.branches);
        let mid = start.after(rest);
        let end = start.after(events);
        let number = mid.numbers[mid.next];
        seqs::lemma_first_where_is(mid.branches, having(number));
        if let HubEvent::View { reply: Ok(info), .. } = events.last() {
            if let Some(k) = mid.subject() {
                assert(having(number)(mid.branches[k]));
                assert(mid.branches[k].pull_request is Some);
                assert(start.branches[k].pull_request is Some);
                assert(start.branches[k].pull_request->0.number == number);
                assert(mid.branches[k] == start.branches[k]) by {
                    if mid.branches[k] != start.branches[k] {
                        let m = choose|m: int|
                            0 <= m < mid.next && m < start.numbers.len()
                                && #[trigger] start.numbers[m]
                                == start.branches[k].pull_request->0.number;
                        assert(start.numbers[m] != start.numbers[mid.next]);
                    }
                }
                let b = brought_up(mid.branches[k], info@);
                lemma_newly_update(start.branches, mid.branches, k, b, n);
                assert forall|i: int| 0 <= i < n implies #[trigger] end.branches[i]
                    == start.branches[i] || (start.branches[i].pull_request is Some && exists|m: int|
                    0 <= m < end.next && m < start.numbers.len() && #[trigger] start.numbers[m]
                        == start.branches[i].pull_request->0.number) by {
                    if i == k {
                        assert(start.numbers[mid.next] == number);
                    } else {
                        assert(end.branches[i] == mid.branches[i]);
                    }
                }
                assert forall|i: int| 0 <= i < n implies (
                #[trigger] end.branches[i].pull_request is Some)
                    == start.branches[i].pull_request is Some && (
                end.branches[i].pull_request is Some ==> end.branches[i].pull_request->0.number
                    == start.branches[i].pull_request->0.number) by {
                    if i != k {
                        assert(end.branches[i] == mid.branches[i]);
                    }
                    assert(mid.branches[i].pull_request is Some
                        == start.branches[i].pull_request is Some);
                }
            }
        }
    }
}

/// The count that a refresh returns is that of the branches which it found merged
/// and which were not: those discovered, and then those known, where no two have
/// the same number.
pub proof fn law_merged_are_counted(talk: StackTalk, before: StackView)
    requires
        talk.complete(before),
        numbered_apart(talk.discovery(before).branches),
    ensures
        ({
            let found = talk.discovery(before).branches;
            let is = talk.refresh(before).branches;
            let n = before.branches.len() as int;
            &&& found.len() == n && is.len() == n
            &&& talk.merged(before) == newly(before.branches, found, n) + newly(found, is, n)
        }),
{
    lemma_discovery_counts(Discovery::start(before.branches), talk.found);
    let found = talk.discovery(before).branches;
    lemma_refresh_counts(Refresh::start(found), talk.seen);
}

/// A refresh of every stack that goes through records the time for each and leaves
/// each its branches, with their heads and bases; one that fails leaves alone every
/// stack behind the one it failed at.
pub proof fn law_refresh_all_reaches_every_stack(
    talks: Seq<StackTalk>,
    before: StackFileView,
    now: Seq<char>,
    after: StackFileView,
    r: Result<usize, StackError>,
    k: int,
)
    requires
        refreshes_all(talks, before, now, after, r),
        0 <= k < before.stacks.len(),
    ensures
        after.stacks.len() == before.stacks.len(),
        r is Ok ==> after.stacks[k].last_refreshed_at == Some(now),
        r is Err && k == talks.len() - 1 ==> after.stacks[k].last_refreshed_at
            == before.stacks[k].last_refreshed_at,
        k >= talks.len() ==> after.stacks[k] == before.stacks[k],
        after.stacks[k].trunk == before.stacks[k].trunk,
        after.stacks[k].prefix == before.stacks[k].prefix,
        after.stacks[k].branches.len() == before.stacks[k].branches.len(),
        forall|i: int|
            0 <= i < before.stacks[k].branches.len() ==> {
                let was = before.stacks[k].branches[i];
                let is = #[trigger] after.stacks[k].branches[i];
                is.branch == was.branch && is.head == was.head && is.base == was.base
            },
{
    if k < talks.len() {
        assert(talks[k].complete(before.stacks[k]));
        law_refresh_keeps_branches(talks[k], before.stacks[k], now);
        assert(after.stacks[k] == talks[k].result(before.stacks[k], now));
        if k == talks.len() - 1 {
            assert(talks[k] == talks.last());
        }
    }
}

/// The first question of a refresh is for the first branch that has no pull
/// request.
pub proof fn law_discovery_starts_at_first(talk: StackTalk, before: StackView, j: int)
    requires
        talk.complete(before),
        0 <= j < before.branches.len(),
        before.branches[j].pull_request is None,
        forall|i: int| 0 <= i < j ==> (#[trigger] before.branches[i]).pull_request is Some,
    ensures
        talk.events().len() > 0,
        talk.events()[0] matches HubEvent::FindByHead { branch, .. } && branch
            == before.branches[j].branch,
{
    let start = Discovery::start(before.branches);
    lemma_first_unknown(before.branches, 0, j);
    assert(start.at() == j);
    if talk.found.len() == 0 {
        assert(start.after(talk.found) == start);
    }
    lemma_first_asked(start, talk.found);
    assert(talk.events()[0] == talk.found[0]);
}

proof fn lemma_first_unknown(branches: Seq<BranchView>, from: int, j: int)
    requires
        0 <= from <= j < branches.len(),
        branches[j].pull_request is None,
        forall|i: int| from <= i < j ==> (#[trigger] branches[i]).pull_request is Some,
    ensures
        unknown_from(branches, from) == j,
    decreases j - from,
{
    if from < j {
        assert(branches[from].pull_request is Some);
        lemma_first_unknown(branches, from + 1, j);
    }
}

proof fn lemma_first_asked(start: Discovery, events: Seq<HubEvent>)
    requires
        start.follows(events),
        events.len() > 0,
    ensures
        start.asks(events[0]),
    decreases events.len(),
{
    let rest = events.drop_last();
    if rest.len() > 0 {
        lemma_first_asked(start, rest);
        assert(rest[0] == events[0]);
    } else {
        assert(start.after(rest) == start);
    }
}

/// A count that fits is reported as it is.
pub proof fn law_count_is_reported(n: nat)
    ensures
        n <= usize::MAX ==> clip(n) == n,
        n > usize::MAX ==> clip(n) == usize::MAX,
{
}

} // verus!
