//! `stack submit`: push the branches of a stack, and open or refresh their
//! pull requests.

use vstd::prelude::*;

use crate::domain::error::{Fault, StackError};
use crate::domain::stack::{
    asked_commits, branch_views, holding, item_told, item_views, lemma_planning_told, plans,
    stack_views, ActionView, Branch, BranchView, ItemView,
    Planning, PullRequest, Stack, StackFile, StackFileView, StackView, SubmitAction, SubmitPlanItem,
};
use crate::git::{commit_views, CommitSummary, CommitView, GitEvent, GitOps};
use crate::github::{CreateView, GitHub, HubEvent, PrState};
use crate::ops::pr_refresh;
use crate::seqs;
use crate::text;

verus! {

#[derive(Debug)]
pub struct SubmitArgs {
    /// Accepted for the sake of old aliases; nothing is ever asked.
    pub auto: bool,
    pub draft: bool,
    pub remote: String,
    pub no_refresh: bool,
}

/// What a submission did, as far as it came.
#[derive(Debug)]
pub struct SubmitReport {
    /// Pull requests found to have been merged since the last refresh.
    pub newly_merged: usize,
    /// How many branches were pushed; `None` where it did not come to that.
    pub pushed: Option<usize>,
    /// The steps that were carried out.
    pub done: Vec<SubmitPlanItem>,
}

#[verifier::ext_equal]
pub struct ReportView {
    pub newly_merged: nat,
    pub pushed: Option<nat>,
    pub done: Seq<ItemView>,
}

impl View for SubmitReport {
    type V = ReportView;

    open spec fn view(&self) -> ReportView {
        ReportView {
            newly_merged: self.newly_merged as nat,
            pushed: match self.pushed {
                Some(n) => Some(n as nat),
                None => None,
            },
            done: item_views(self.done@),
        }
    }
}

impl ReportView {
    /// Nothing was done yet.
    pub open spec fn blank() -> ReportView {
        ReportView { newly_merged: 0, pushed: None, done: Seq::empty() }
    }
}

impl Default for SubmitReport {
    fn default() -> (r: Self)
        ensures
            r@ == ReportView::blank(),
    {
        let r = SubmitReport { newly_merged: 0, pushed: None, done: Vec::new() };
        assert(item_views(r.done@) =~= Seq::<ItemView>::empty());
        r
    }
}

/// A branch name as a title: its last segment, word by word, each capitalised.
pub open spec fn humanised(branch: Seq<char>) -> Seq<char> {
    let leaf = text::pieces(branch, '/').last();
    let words = text::words_of(text::replaced(leaf, seq!['-', '_'], ' '));
    text::joined(words.map_values(|w: Seq<char>| text::capitalised(w)), " "@)
}

/// A branch name as a title: its last segment, word by word, each capitalised.
pub fn humanise(branch: &str) -> (r: String)
    ensures
        r@ == humanised(branch@),
{
    let parts = text::split(branch, '/');
    let last: usize = parts.len() - 1;
    assert(text::views(parts@).last() == parts@[last as int]@);
    let spaced = text::replace_two(parts[last].as_str(), '-', '_', ' ');
    let words = text::words(spaced.as_str());
    let ghost all = text::views(words@);
    let ghost f = |w: Seq<char>| text::capitalised(w);
    let mut out: Vec<String> = Vec::new();
    let mut i: usize = 0;
    assert(text::views(out@) =~= all.map_values(f).take(0));
    while i < words.len()
        invariant
            i <= words.len(),
            all == text::views(words@),
            f == (|w: Seq<char>| text::capitalised(w)),
            text::views(out@) == all.map_values(f).take(i as int),
        decreases words.len() - i,
    {
        let ghost before = text::views(out@);
        assert(all[i as int] == words@[i as int]@);
        let word = text::capitalise(words[i].as_str());
        let ghost model = word@;
        out.push(word);
        assert(text::views(out@) =~= before.push(model));
        assert(text::views(out@) =~= all.map_values(f).take(i + 1));
        i = i + 1;
    }
    assert(all.map_values(f).take(words.len() as int) =~= all.map_values(f));
    text::join(out.as_slice(), " ")
}

/// The subjects of commits as list items.
pub open spec fn bullets(commits: Seq<CommitView>) -> Seq<Seq<char>> {
    commits.map_values(|c: CommitView| "- "@ + c.subject)
}

/// Title and body of a new pull request: those of the only commit; else the
/// branch name as a title, over the list of commit subjects.
pub open spec fn title_body(branch: Seq<char>, commits: Seq<CommitView>) -> (
    Seq<char>,
    Seq<char>,
) {
    if commits.len() == 0 {
        (humanised(branch), Seq::empty())
    } else if commits.len() == 1 {
        (commits[0].subject, commits[0].body)
    } else {
        (humanised(branch), text::joined(bullets(commits), "\n"@))
    }
}

/// Title and body of a new pull request, from the commits that it holds.
pub fn auto_title_body_from_commits(branch: &str, commits: &Vec<CommitSummary>) -> (r: (
    String,
    String,
))
    ensures
        (r.0@, r.1@) == title_body(branch@, commit_views(commits@)),
{
    let ghost all = commit_views(commits@);
    if commits.len() == 0 {
        return (humanise(branch), String::new());
    }
    if commits.len() == 1 {
        assert(all[0] == commits@[0]@);
        return (commits[0].subject.clone(), commits[0].body.clone());
    }
    let mut lines: Vec<String> = Vec::new();
    let mut i: usize = 0;
    assert(text::views(lines@) =~= bullets(all).take(0));
    while i < commits.len()
        invariant
            i <= commits.len(),
            all == commit_views(commits@),
            text::views(lines@) == bullets(all).take(i as int),
        decreases commits.len() - i,
    {
        let ghost before = text::views(lines@);
        assert(all[i as int] == commits@[i as int]@);
        let line = text::cat("- ", commits[i].subject.as_str());
        let ghost model = line@;
        lines.push(line);
        assert(text::views(lines@) =~= before.push(model));
        assert(text::views(lines@) =~= bullets(all).take(i + 1));
        i = i + 1;
    }
    assert(bullets(all).take(commits.len() as int) =~= bullets(all));
    (humanise(branch), text::join(lines.as_slice(), "\n"))
}

/// The names of the branches that a plan acts on: those to push.
pub open spec fn acted_names(items: Seq<ItemView>) -> Seq<Seq<char>>
    decreases items.len(),
{
    if items.len() == 0 {
        Seq::empty()
    } else if items.last().action.acts() {
        acted_names(items.drop_last()).push(items.last().branch)
    } else {
        acted_names(items.drop_last())
    }
}

/// The names of the branches that a plan acts on.
pub(crate) fn names_to_push(plan: &Vec<SubmitPlanItem>) -> (r: Vec<String>)
    ensures
        text::views(r@) == acted_names(item_views(plan@)),
{
    let ghost all = item_views(plan@);
    let mut out: Vec<String> = Vec::new();
    let mut i: usize = 0;
    assert(text::views(out@) =~= acted_names(all.take(0)));
    while i < plan.len()
        invariant
            i <= plan.len(),
            all == item_views(plan@),
            text::views(out@) == acted_names(all.take(i as int)),
        decreases plan.len() - i,
    {
        let ghost before = text::views(out@);
        assert(all[i as int] == plan@[i as int]@);
        assert(all.take(i + 1).drop_last() =~= all.take(i as int));
        let acts = match &plan[i].action {
            SubmitAction::RefreshExisting { .. } => true,
            SubmitAction::Create { .. } => true,
            _ => false,
        };
        if acts {
            out.push(plan[i].branch.clone());
            assert(text::views(out@) =~= before.push(all[i as int].branch));
        }
        i = i + 1;
    }
    assert(all.take(plan.len() as int) =~= all);
    out
}

/// What was asked of git and of GitHub to carry out one item of a plan.
pub struct ItemTalk {
    pub git: Seq<GitEvent>,
    pub hub: Seq<HubEvent>,
}

impl ItemTalk {
    /// Whether this carries out the item: a recorded pull request is looked
    /// up; a new one is opened with what its commits make of it.
    pub open spec fn complete(self, item: ItemView, draft: bool) -> bool {
        match item.action {
            ActionView::RefreshExisting { number } => {
                &&& self.git.len() == 0
                &&& self.hub.len() == 1
                &&& self.hub[0] matches HubEvent::View { number: n, .. } && n == number
            },
            ActionView::Create { base } => {
                &&& self.git.len() == 1
                &&& self.git[0] matches GitEvent::Commits { base: b, branch, reply }
                &&& b == base
                &&& branch == item.branch
                &&& match reply {
                    Err(_) => self.hub.len() == 0,
                    Ok(commits) => {
                        let words = title_body(item.branch, commit_views(commits@));
                        &&& self.hub.len() == 1
                        &&& self.hub[0] matches HubEvent::Create { call, .. } && call == (
                        CreateView { head: item.branch, base, title: words.0, body: words.1, draft })
                    },
                }
            },
            _ => self.git.len() == 0 && self.hub.len() == 0,
        }
    }

    /// Why carrying out the item failed.
    pub open spec fn failed(self, item: ItemView) -> Option<Fault> {
        match item.action {
            ActionView::RefreshExisting { .. } => match self.hub[0] {
                HubEvent::View { reply: Err(e), .. } => Some(e@),
                _ => None,
            },
            ActionView::Create { .. } => match self.git[0] {
                GitEvent::Commits { reply: Err(e), .. } => Some(e@),
                _ => match self.hub[0] {
                    HubEvent::Create { reply: Err(e), .. } => Some(e@),
                    _ => None,
                },
            },
            _ => None,
        }
    }

    /// The branch afterwards.
    pub open spec fn result(self, item: ItemView, b: BranchView) -> BranchView {
        if self.failed(item) is Some {
            b
        } else {
            match item.action {
                ActionView::RefreshExisting { .. } => match self.hub[0] {
                    HubEvent::View { reply: Ok(info), .. } => pr_refresh::brought_up(b, info@),
                    _ => b,
                },
                ActionView::Create { .. } => match self.hub[0] {
                    HubEvent::Create { reply: Ok(info), .. } => BranchView {
                        pull_request: Some(pr_refresh::recorded(info@)),
                        ..b
                    },
                    _ => b,
                },
                _ => b,
            }
        }
    }
}

/// What was asked of git, item after item.
pub open spec fn git_events(talks: Seq<ItemTalk>) -> Seq<GitEvent>
    decreases talks.len(),
{
    if talks.len() == 0 {
        Seq::empty()
    } else {
        git_events(talks.drop_last()) + talks.last().git
    }
}

/// What was asked of GitHub, item after item.
pub open spec fn hub_events(talks: Seq<ItemTalk>) -> Seq<HubEvent>
    decreases talks.len(),
{
    if talks.len() == 0 {
        Seq::empty()
    } else {
        hub_events(talks.drop_last()) + talks.last().hub
    }
}

/// Whether `talks` carry out the items from the first on, each completely, and
/// none after one that failed.
pub open spec fn in_turn(talks: Seq<ItemTalk>, items: Seq<ItemView>, draft: bool) -> bool {
    &&& talks.len() <= items.len()
    &&& forall|i: int| 0 <= i < talks.len() ==> (#[trigger] talks[i]).complete(items[i], draft)
    &&& forall|i: int| 0 <= i < talks.len() - 1 ==> (#[trigger] talks[i]).failed(items[i]) is None
}

/// The branches after `talks`; the item at `i` is for the branch at `i`.
pub open spec fn all_results(
    talks: Seq<ItemTalk>,
    items: Seq<ItemView>,
    branches: Seq<BranchView>,
) -> Seq<BranchView> {
    Seq::new(
        branches.len(),
        |i: int|
            if i < talks.len() {
                talks[i].result(items[i], branches[i])
            } else {
                branches[i]
            },
    )
}

fn run_item<G: GitOps, H: GitHub>(
    git: &mut G,
    gh: &mut H,
    item: &SubmitPlanItem,
    b: &mut Branch,
    draft: bool,
) -> (r: (Result<(), StackError>, Ghost<ItemTalk>))
    requires
        item.action is RefreshExisting ==> old(b).pull_request is Some,
    ensures
        final(git).history() == old(git).history() + r.1@.git,
        final(gh).history() == old(gh).history() + r.1@.hub,
        r.1@.complete(item@, draft),
        final(b)@ == r.1@.result(item@, old(b)@),
        match r.1@.failed(item@) {
            Some(f) => r.0 matches Err(e) && e@ == f,
            None => r.0 is Ok,
        },
{
    let ghost no_git = Seq::<GitEvent>::empty();
    let ghost no_hub = Seq::<HubEvent>::empty();
    assert(git.history() =~= git.history() + no_git);
    assert(gh.history() =~= gh.history() + no_hub);
    match &item.action {
        SubmitAction::SkipMerged => (Ok(()), Ghost(ItemTalk { git: no_git, hub: no_hub })),
        SubmitAction::SkipEmpty => (Ok(()), Ghost(ItemTalk { git: no_git, hub: no_hub })),
        SubmitAction::RefreshExisting { number } => {
            let reply = gh.view_pr(*number);
            let ghost talk = ItemTalk {
                git: no_git,
                hub: seq![HubEvent::View { number: *number, reply }],
            };
            assert(gh.history() =~= old(gh).history() + talk.hub);
            match reply {
                Err(e) => (Err(e), Ghost(talk)),
                Ok(info) => {
                    if let Some(pr) = b.pull_request.as_mut() {
                        pr.merged = info.state == PrState::Merged;
                        pr.url = info.url;
                        pr.id = info.id;
                    }
                    (Ok(()), Ghost(talk))
                },
            }
        },
        SubmitAction::Create { base } => {
            let reply = git.commits_between(base.as_str(), item.branch.as_str());
            let ghost asked = seq![
                GitEvent::Commits { base: base@, branch: item.branch@, reply },
            ];
            assert(git.history() =~= old(git).history() + asked);
            match reply {
                Err(e) => (Err(e), Ghost(ItemTalk { git: asked, hub: no_hub })),
                Ok(commits) => {
                    let (title, body) = auto_title_body_from_commits(
                        item.branch.as_str(),
                        &commits,
                    );
                    let made = gh.create_pr(
                        item.branch.as_str(),
                        base.as_str(),
                        title.as_str(),
                        body.as_str(),
                        draft,
                    );
                    let ghost call = CreateView {
                        head: item.branch@,
                        base: base@,
                        title: title@,
                        body: body@,
                        draft,
                    };
                    let ghost talk = ItemTalk {
                        git: asked,
                        hub: seq![HubEvent::Create { call, reply: made }],
                    };
                    assert(gh.history() =~= old(gh).history() + talk.hub);
                    match made {
                        Err(e) => (Err(e), Ghost(talk)),
                        Ok(info) => {
                            b.pull_request = Some(
                                PullRequest {
                                    number: info.number,
                                    id: info.id,
                                    url: info.url,
                                    merged: info.state == PrState::Merged,
                                },
                            );
                            (Ok(()), Ghost(talk))
                        },
                    }
                },
            }
        },
    }
}

fn run_items<G: GitOps, H: GitHub>(
    git: &mut G,
    gh: &mut H,
    plan: &Vec<SubmitPlanItem>,
    list: &mut Vec<Branch>,
    draft: bool,
) -> (r: (Result<(), StackError>, usize, Ghost<Seq<ItemTalk>>))
    requires
        plan@.len() == old(list)@.len(),
        forall|i: int|
            0 <= i < plan@.len() && (#[trigger] plan@[i]).action is RefreshExisting ==> old(
                list,
            )@[i].pull_request is Some,
    ensures
        final(git).history() == old(git).history() + git_events(r.2@),
        final(gh).history() == old(gh).history() + hub_events(r.2@),
        in_turn(r.2@, item_views(plan@), draft),
        branch_views(final(list)@) == all_results(
            r.2@,
            item_views(plan@),
            branch_views(old(list)@),
        ),
        match r.0 {
            Ok(()) => r.1 == plan@.len() && r.2@.len() == plan@.len() && (r.2@.len() > 0 ==> r.2@.last().failed(
                item_views(plan@)[r.2@.len() - 1],
            ) is None),
            Err(e) => r.2@.len() > 0 && r.1 == r.2@.len() - 1 && r.2@.last().failed(item_views(plan@)[r.2@.len() - 1])
                == Some(e@),
        },
{
    let ghost branches = branch_views(list@);
    let ghost items = item_views(plan@);
    let ghost mut talks: Seq<ItemTalk> = Seq::empty();
    let n: usize = plan.len();
    let mut i: usize = 0;
    assert(git.history() =~= old(git).history() + git_events(talks));
    assert(gh.history() =~= old(gh).history() + hub_events(talks));
    assert(branches =~= all_results(talks, items, branches));
    while i < n
        invariant
            i <= n,
            n == plan@.len(),
            list@.len() == n,
            old(list)@.len() == n,
            branches == branch_views(old(list)@),
            items == item_views(plan@),
            talks.len() == i,
            in_turn(talks, items, draft),
            talks.len() > 0 ==> talks.last().failed(items[i - 1]) is None,
            branch_views(list@) == all_results(talks, items, branches),
            forall|j: int| i <= j < n ==> list@[j] == old(list)@[j],
            forall|j: int|
                0 <= j < plan@.len() && (#[trigger] plan@[j]).action is RefreshExisting ==> old(
                    list,
                )@[j].pull_request is Some,
            git.history() == old(git).history() + git_events(talks),
            gh.history() == old(gh).history() + hub_events(talks),
        decreases n - i,
    {
        let ghost mid = list@;
        assert(items[i as int] == plan@[i as int]@);
        assert(branch_views(mid)[i as int] == mid[i as int]@);
        assert(branches[i as int] == old(list)@[i as int]@);
        let (outcome, Ghost(talk)) = run_item(git, gh, &plan[i], &mut list[i], draft);
        let ghost more = talks.push(talk);
        proof {
            assert(more.drop_last() =~= talks);
            assert(git.history() =~= old(git).history() + git_events(more));
            assert(gh.history() =~= old(gh).history() + hub_events(more));
            assert(branch_views(list@) =~= branch_views(mid).update(
                i as int,
                talk.result(items[i as int], branches[i as int]),
            ));
            assert(branch_views(list@) =~= all_results(more, items, branches));
            assert forall|j: int| 0 <= j < more.len() implies (#[trigger] more[j]).complete(
                items[j],
                draft,
            ) by {
                if j < i {
                    assert(more[j] == talks[j]);
                }
            }
            assert forall|j: int| 0 <= j < more.len() - 1 implies (#[trigger] more[j]).failed(
                items[j],
            ) is None by {
                assert(more[j] == talks[j]);
            }
        }
        match outcome {
            Err(e) => {
                return (Err(e), i, Ghost(more));
            },
            Ok(()) => {},
        }
        proof {
            talks = more;
        }
        i = i + 1;
    }
    (Ok(()), n, Ghost(talks))
}

/// What was asked to submit one stack, once its pull requests are refreshed.
pub struct StackSubmission {
    pub planning: Seq<GitEvent>,
    pub push: Seq<GitEvent>,
    pub items: Seq<ItemTalk>,
}

/// What a push came to: failed, where it was made and refused.
pub open spec fn push_failed(push: Seq<GitEvent>) -> Option<Fault> {
    if push.len() == 0 {
        None
    } else {
        match push[0] {
            GitEvent::Push { reply: Err(e), .. } => Some(e@),
            _ => None,
        }
    }
}

/// Whether `push` pushes exactly these branches to the remote, in one go; there
/// is no push of no branch.
pub open spec fn pushes(push: Seq<GitEvent>, remote: Seq<char>, names: Seq<Seq<char>>) -> bool {
    if names.len() == 0 {
        push.len() == 0
    } else {
        &&& push.len() == 1
        &&& push[0] matches GitEvent::Push { remote: r, branches, .. } && r == remote && branches
            == names
    }
}

impl StackSubmission {
    pub open spec fn git(self) -> Seq<GitEvent> {
        self.planning + self.push + git_events(self.items)
    }

    pub open spec fn hub(self) -> Seq<HubEvent> {
        hub_events(self.items)
    }

    /// The plan that was made.
    pub open spec fn plan(self, before: StackView) -> Planning {
        Planning::start(before).after(self.planning)
    }

    /// Whether this submits the stack, as far as nothing failed: plan, then
    /// push what is acted on, then carry out the plan.
    pub open spec fn complete(self, before: StackView, remote: Seq<char>, draft: bool) -> bool {
        let plan = self.plan(before);
        &&& Planning::start(before).follows(self.planning)
        &&& plan.done()
        &&& if plan.failed is Some {
            self.push.len() == 0 && self.items.len() == 0
        } else {
            &&& pushes(self.push, remote, acted_names(plan.items))
            &&& if push_failed(self.push) is Some {
                self.items.len() == 0
            } else {
                &&& in_turn(self.items, plan.items, draft)
                &&& self.items.len() < plan.items.len() ==> self.items_failed(before) is Some
            }
        }
    }

    /// Why carrying out the plan failed.
    pub open spec fn items_failed(self, before: StackView) -> Option<Fault> {
        if self.items.len() == 0 {
            None
        } else {
            self.items.last().failed(self.plan(before).items[self.items.len() - 1])
        }
    }

    /// Why the submission failed.
    pub open spec fn failed(self, before: StackView) -> Option<Fault> {
        match self.plan(before).failed {
            Some(f) => Some(f),
            None => match push_failed(self.push) {
                Some(f) => Some(f),
                None => self.items_failed(before),
            },
        }
    }

    /// How many branches were pushed, where it came to that.
    pub open spec fn pushed(self, before: StackView) -> Option<nat> {
        if self.plan(before).failed is Some || push_failed(self.push) is Some {
            None
        } else {
            Some(acted_names(self.plan(before).items).len())
        }
    }

    /// The steps that were carried out.
    pub open spec fn done(self, before: StackView) -> Seq<ItemView> {
        self.plan(before).items.take(
            if self.items_failed(before) is Some {
                self.items.len() - 1
            } else {
                self.items.len() as int
            },
        )
    }

    /// The stack afterwards: a submission that failed leaves the timestamp.
    pub open spec fn result(self, before: StackView, now: Seq<char>) -> StackView {
        StackView {
            branches: all_results(self.items, self.plan(before).items, before.branches),
            last_refreshed_at: if self.failed(before) is Some {
                before.last_refreshed_at
            } else {
                Some(now)
            },
            ..before
        }
    }
}

fn submit_stack<G: GitOps, H: GitHub>(
    git: &mut G,
    gh: &mut H,
    stack: &mut Stack,
    remote: &str,
    draft: bool,
    now: &str,
    report: &mut SubmitReport,
) -> (r: (Result<(), StackError>, Ghost<StackSubmission>))
    requires
        old(report)@.pushed is None,
        old(report)@.done.len() == 0,
    ensures
        final(git).history() == old(git).history() + r.1@.git(),
        final(gh).history() == old(gh).history() + r.1@.hub(),
        r.1@.complete(old(stack)@, remote@, draft),
        final(stack)@ == r.1@.result(old(stack)@, now@),
        final(report)@ == (ReportView {
            newly_merged: old(report)@.newly_merged,
            pushed: r.1@.pushed(old(stack)@),
            done: r.1@.done(old(stack)@),
        }),
        match r.0 {
            Ok(()) => r.1@.failed(old(stack)@) is None,
            Err(e) => r.1@.failed(old(stack)@) == Some(e@),
        },
{
    let ghost before = stack@;
    let ghost none: Seq<ItemTalk> = Seq::empty();
    let ghost no_push: Seq<GitEvent> = Seq::empty();
    let planned = stack.submit_plan(git);
    let ghost planning = choose|events: Seq<GitEvent>|
        #[trigger] plans(before, events, planned) && git.history() == old(git).history() + events;
    let mut plan = match planned {
        Err(e) => {
            let ghost talk = StackSubmission { planning, push: no_push, items: none };
            assert(git.history() =~= old(git).history() + talk.git());
            assert(gh.history() =~= old(gh).history() + talk.hub());
            assert(stack@.branches =~= talk.result(before, now@).branches);
            assert(report@.done =~= talk.done(before));
            return (Err(e), Ghost(talk));
        },
        Ok(plan) => plan,
    };
    let ghost items = item_views(plan@);
    proof {
        crate::domain::stack::law_plan_covers_stack(before, planning, Ok(plan));
        assert forall|i: int|
            0 <= i < plan@.len() && (
            #[trigger] plan@[i]).action is RefreshExisting implies stack.branches@[i].pull_request is Some by {
            assert(crate::domain::stack::item_fits(before, items, i));
            assert(items[i] == plan@[i]@);
            assert(before.branches[i] == stack.branches@[i]@);
        }
    }
    let names = names_to_push(&plan);
    assert(names@.len() == text::views(names@).len());
    let ghost mut push: Seq<GitEvent> = Seq::empty();
    if names.len() > 0 {
        let reply = git.push_atomic(remote, names.as_slice());
        proof {
            push = push.push(
                GitEvent::Push { remote: remote@, branches: text::views(names@), reply },
            );
        }
        if let Err(e) = reply {
            let ghost talk = StackSubmission { planning, push, items: none };
            assert(git.history() =~= old(git).history() + talk.git());
            assert(gh.history() =~= old(gh).history() + talk.hub());
            assert(stack@.branches =~= talk.result(before, now@).branches);
            assert(report@.done =~= talk.done(before));
            return (Err(e), Ghost(talk));
        }
    }
    assert(git.history() =~= old(git).history() + planning + push);
    let (outcome, count, Ghost(talks)) = run_items(git, gh, &plan, &mut stack.branches, draft);
    let ghost talk = StackSubmission { planning, push, items: talks };
    assert(git.history() =~= old(git).history() + talk.git());
    report.pushed = Some(names.len());
    proof {
        assert(item_views(plan@).take(count as int) =~= item_views(
            plan@.subrange(0, count as int),
        ));
    }
    plan.truncate(count);
    report.done = plan;
    assert(report@.done =~= talk.done(before));
    match outcome {
        Err(e) => (Err(e), Ghost(talk)),
        Ok(()) => {
            stack.last_refreshed_at = Some(now.to_string());
            (Ok(()), Ghost(talk))
        },
    }
}

/// What was asked in one run of `submit`.
pub struct SubmitTalk {
    pub current: GitEvent,
    pub refresh: Option<pr_refresh::StackTalk>,
    pub stack: Option<StackSubmission>,
}

impl SubmitTalk {
    pub open spec fn git(self) -> Seq<GitEvent> {
        seq![self.current] + match self.stack {
            Some(s) => s.git(),
            None => Seq::empty(),
        }
    }

    pub open spec fn hub(self) -> Seq<HubEvent> {
        (match self.refresh {
            Some(t) => t.events(),
            None => Seq::empty(),
        }) + match self.stack {
            Some(s) => s.hub(),
            None => Seq::empty(),
        }
    }
}

/// Whether `talk` submits the stack at `index`: refresh first, unless that was
/// declined, then plan, push and carry out the plan.
pub open spec fn submits_stack(
    talk: SubmitTalk,
    before: StackFileView,
    index: int,
    args: SubmitArgs,
    now: Seq<char>,
    after: StackFileView,
    r: Result<(), StackError>,
    report: ReportView,
) -> bool {
    let stack = before.stacks[index];
    let mid = match talk.refresh {
        Some(t) => t.result(stack, now),
        None => stack,
    };
    let refresh_failed = match talk.refresh {
        Some(t) => t.refresh(stack).failed,
        None => None,
    };
    &&& args.no_refresh == (talk.refresh is None)
    &&& talk.refresh matches Some(t) ==> t.complete(stack)
    &&& match refresh_failed {
        Some(f) => {
            &&& talk.stack is None
            &&& after == (StackFileView { stacks: before.stacks.update(index, mid), ..before })
            &&& r matches Err(e) && e@ == f
            &&& report == ReportView::blank()
        },
        None => {
            &&& talk.stack matches Some(s)
            &&& s.complete(mid, args.remote@, args.draft)
            &&& after == (StackFileView {
                stacks: before.stacks.update(index, s.result(mid, now)),
                ..before
            })
            &&& report == (ReportView {
                newly_merged: match talk.refresh {
                    Some(t) => pr_refresh::clip(t.merged(stack)) as nat,
                    None => 0,
                },
                pushed: s.pushed(mid),
                done: s.done(mid),
            })
            &&& match s.failed(mid) {
                Some(f) => r matches Err(e) && e@ == f,
                None => r is Ok,
            }
        },
    }
}

/// Whether `talk` is a run of `submit` that turns one file into another and
/// returns `r`.
pub open spec fn submits(
    talk: SubmitTalk,
    before: StackFileView,
    args: SubmitArgs,
    now: Seq<char>,
    after: StackFileView,
    r: Result<(), StackError>,
    report: ReportView,
) -> bool {
    &&& talk.current matches GitEvent::CurrentBranch { reply }
    &&& match reply {
        Err(f) => {
            &&& talk.refresh is None && talk.stack is None && after == before
            &&& report == ReportView::blank()
            &&& r matches Err(e) && e@ == f@
        },
        Ok(None) => {
            &&& talk.refresh is None && talk.stack is None && after == before
            &&& report == ReportView::blank()
            &&& r matches Err(e) && e@ == Fault::Other("detached HEAD"@)
        },
        Ok(Some(branch)) => match seqs::first_where(before.stacks, holding(branch@)) {
            None => {
                &&& talk.refresh is None && talk.stack is None && after == before
                &&& report == ReportView::blank()
                &&& r matches Err(e) && e@ == Fault::NotInStack
            },
            Some(index) => submits_stack(talk, before, index, args, now, after, r, report),
        },
    }
}

/// Where the first stack that holds this branch stands.
pub(crate) fn find_stack(file: &StackFile, branch: &str) -> (r: Option<usize>)
    ensures
        match r {
            Some(k) => seqs::first_where(file@.stacks, holding(branch@)) == Some(k as int) && k
                < file.stacks@.len(),
            None => seqs::first_where(file@.stacks, holding(branch@)) is None,
        },
{
    let ghost all = file@.stacks;
    let mut i: usize = 0;
    while i < file.stacks.len()
        invariant
            i <= file.stacks.len(),
            all == stack_views(file.stacks@),
            all == file@.stacks,
            forall|j: int| 0 <= j < i ==> !holding(branch@)(#[trigger] all[j]),
        decreases file.stacks.len() - i,
    {
        assert(all[i as int] == file.stacks@[i as int]@);
        if file.stacks[i].contains(branch) {
            proof {
                seqs::lemma_first_where(all, holding(branch@), i as int);
            }
            return Some(i);
        }
        i = i + 1;
    }
    proof {
        seqs::lemma_first_where_none(all, holding(branch@));
    }
    None
}

/// Push the current stack and open or refresh its pull requests. Pull-request
/// state is refreshed first, so that a branch merged in the meantime is not
/// pushed again. `now` is recorded as the time of the refresh.
pub fn submit<G: GitOps, H: GitHub>(
    git: &mut G,
    gh: &mut H,
    file: &mut StackFile,
    args: &SubmitArgs,
    now: &str,
    report: &mut SubmitReport,
) -> (r: Result<(), StackError>)
    ensures
        exists|talk: SubmitTalk|
            #[trigger] submits(talk, old(file)@, *args, now@, final(file)@, r, final(report)@)
                && final(git).history() == old(git).history() + talk.git()
                && final(gh).history() == old(gh).history() + talk.hub(),
{
    let ghost before = file@;
    *report = SubmitReport::default();
    let reply = git.current_branch();
    let ghost current = GitEvent::CurrentBranch { reply };
    let ghost nothing = SubmitTalk { current, refresh: None, stack: None };
    assert(git.history() =~= old(git).history() + nothing.git());
    assert(gh.history() =~= old(gh).history() + nothing.hub());
    let branch = match reply {
        Err(e) => {
            assert(submits(nothing, before, *args, now@, file@, Err(e), report@));
            return Err(e);
        },
        Ok(None) => {
            let e = StackError::Other("detached HEAD".to_string());
            assert(submits(nothing, before, *args, now@, file@, Err(e), report@));
            return Err(e);
        },
        Ok(Some(branch)) => branch,
    };
    let index = match find_stack(file, branch.as_str()) {
        None => {
            assert(submits(nothing, before, *args, now@, file@, Err(StackError::NotInStack), report@));
            return Err(StackError::NotInStack);
        },
        Some(index) => index,
    };
    let ghost mut refresh: Option<pr_refresh::StackTalk> = None;
    let ghost h = gh.history();
    let ghost mut mid = before.stacks[index as int];
    assert(before.stacks =~= before.stacks.update(index as int, mid));
    if !args.no_refresh {
        let outcome = pr_refresh::refresh_stack(gh, file, index, now);
        let ghost t = choose|t: pr_refresh::StackTalk|
            #[trigger] pr_refresh::refreshes(t, before, index as int, now@, file@, outcome)
                && gh.history() == h + t.events();
        proof {
            refresh = Some(t);
            mid = t.result(before.stacks[index as int], now@);
        }
        match outcome {
            Err(e) => {
                let ghost talk = SubmitTalk { current, refresh, stack: None };
                assert(git.history() =~= old(git).history() + talk.git());
                assert(gh.history() =~= old(gh).history() + talk.hub());
                assert(submits(talk, before, *args, now@, file@, Err(e), report@));
                return Err(e);
            },
            Ok(n) => {
                report.newly_merged = n;
            },
        }
    }
    assert(file@.stacks == before.stacks.update(index as int, mid));
    let ghost stacks = stack_views(file.stacks@);
    assert(stacks.len() == file.stacks@.len());
    assert(stacks[index as int] == file.stacks@[index as int]@);
    assert(stacks[index as int] == mid);
    let (outcome, Ghost(s)) = submit_stack(
        git,
        gh,
        &mut file.stacks[index],
        args.remote.as_str(),
        args.draft,
        now,
        report,
    );
    let ghost talk = SubmitTalk { current, refresh, stack: Some(s) };
    assert(stack_views(file.stacks@) =~= stacks.update(index as int, s.result(mid, now@)));
    assert(stack_views(file.stacks@) =~= before.stacks.update(index as int, s.result(mid, now@)));
    assert(git.history() =~= old(git).history() + talk.git());
    assert(gh.history() =~= old(gh).history() + talk.hub());
    assert(submits(talk, before, *args, now@, file@, outcome, report@));
    outcome
}

/// Whether a plan opens a pull request for a branch or brings one up to date.
pub open spec fn acted_on(items: Seq<ItemView>, name: Seq<char>) -> bool {
    exists|i: int|
        0 <= i < items.len() && (#[trigger] items[i]).branch == name && (items[i].action is Create
            || items[i].action is RefreshExisting)
}

/// The names that a plan acts on are those of the items that open a pull request
/// or bring one up to date.
pub proof fn lemma_acted_names(items: Seq<ItemView>)
    ensures
        forall|i: int|
            0 <= i < items.len() && ((#[trigger] items[i]).action is Create
                || items[i].action is RefreshExisting) ==> acted_names(items).contains(
                items[i].branch,
            ),
        forall|k: int|
            0 <= k < acted_names(items).len() ==> acted_on(items, #[trigger] acted_names(items)[k]),
    decreases items.len(),
{
    if items.len() > 0 {
        let rest = items.drop_last();
        lemma_acted_names(rest);
        let few = acted_names(rest);
        let all = acted_names(items);
        assert forall|i: int|
            0 <= i < items.len() && ((#[trigger] items[i]).action is Create
                || items[i].action is RefreshExisting) implies all.contains(items[i].branch) by {
            if i < rest.len() {
                assert(rest[i] == items[i]);
                let k = choose|k: int| 0 <= k < few.len() && few[k] == items[i].branch;
                assert(all[k] == items[i].branch);
            } else {
                assert(all[all.len() - 1] == items[i].branch);
            }
        }
        assert forall|k: int| 0 <= k < all.len() implies acted_on(items, #[trigger] all[k]) by {
            if k < few.len() {
                assert(all[k] == few[k]);
                let i = choose|i: int|
                    0 <= i < rest.len() && (#[trigger] rest[i]).branch == few[k] && (
                    rest[i].action is Create || rest[i].action is RefreshExisting);
                assert(items[i] == rest[i]);
            } else {
                assert(items[items.len() - 1].branch == all[k]);
            }
        }
    }
}

/// Every question put to GitHub belongs to one item.
pub proof fn lemma_hub_event(talks: Seq<ItemTalk>, i: int) -> (r: (int, int))
    requires
        0 <= i < hub_events(talks).len(),
    ensures
        0 <= r.0 < talks.len(),
        0 <= r.1 < talks[r.0].hub.len(),
        hub_events(talks)[i] == talks[r.0].hub[r.1],
    decreases talks.len(),
{
    let rest = talks.drop_last();
    let below = hub_events(rest);
    if i < below.len() {
        let (j, k) = lemma_hub_event(rest, i);
        assert(hub_events(talks)[i] == below[i]);
        assert(rest[j] == talks[j]);
        (j, k)
    } else {
        assert(hub_events(talks)[i] == talks.last().hub[i - below.len()]);
        (talks.len() - 1, i - below.len())
    }
}

/// Every question put to git belongs to one item.
pub proof fn lemma_git_event(talks: Seq<ItemTalk>, i: int) -> (r: (int, int))
    requires
        0 <= i < git_events(talks).len(),
    ensures
        0 <= r.0 < talks.len(),
        0 <= r.1 < talks[r.0].git.len(),
        git_events(talks)[i] == talks[r.0].git[r.1],
    decreases talks.len(),
{
    let rest = talks.drop_last();
    let below = git_events(rest);
    if i < below.len() {
        let (j, k) = lemma_git_event(rest, i);
        assert(git_events(talks)[i] == below[i]);
        assert(rest[j] == talks[j]);
        (j, k)
    } else {
        assert(git_events(talks)[i] == talks.last().git[i - below.len()]);
        (talks.len() - 1, i - below.len())
    }
}

/// Whether a pull request that is opened says what the commits of its branch
/// say: the only one's subject and body, or else a line for each subject.
pub open spec fn worded(call: CreateView, commits: Seq<CommitView>) -> bool {
    &&& commits.len() == 1 ==> call.title == commits[0].subject && call.body == commits[0].body
    &&& commits.len() == 0 ==> call.body.len() == 0
    &&& commits.len() > 1 ==> call.body == text::joined(
        commits.map_values(|c: CommitView| "- "@ + c.subject),
        "\n"@,
    )
}

/// Carrying out an item opens a pull request for its branch alone, as a draft
/// exactly where that is asked for, against the base in the plan, in the words
/// of the commits that git gave for it over that base; it is then recorded. A
/// pull request that is there is looked up by its number and keeps it.
pub proof fn law_item_opens_as_asked(talk: ItemTalk, item: ItemView, draft: bool, b: BranchView)
    requires
        talk.complete(item, draft),
        item.action is RefreshExisting ==> b.pull_request is Some,
    ensures
        ({
            let is = talk.result(item, b);
            &&& forall|k: int|
                0 <= k < talk.hub.len() ==> match #[trigger] talk.hub[k] {
                    HubEvent::Create { call, reply } => {
                        &&& call.draft == draft
                        &&& call.head == item.branch
                        &&& item.action == (ActionView::Create { base: call.base })
                        &&& talk.git.len() == 1
                        &&& talk.git[0] matches GitEvent::Commits { base, branch, reply: Ok(commits) }
                            && base == call.base && branch == call.head && worded(
                            call,
                            commit_views(commits@),
                        )
                        &&& match reply {
                            Ok(info) => is.pull_request matches Some(p) && p.number == info.number
                                && pr_refresh::says(p, info@),
                            Err(_) => is == b,
                        }
                    },
                    HubEvent::View { number, reply } => {
                        &&& item.action == (ActionView::RefreshExisting { number })
                        &&& match reply {
                            Ok(info) => is.pull_request matches Some(p) && b.pull_request matches Some(
                                q,
                            ) && p.number == q.number && pr_refresh::says(p, info@),
                            Err(_) => is == b,
                        }
                    },
                    _ => false,
                }
            &&& is.branch == b.branch && is.head == b.head && is.base == b.base
            &&& talk.hub.len() == 0 ==> is == b
            &&& item.action is Create && talk.failed(item) is None ==> is.pull_request is Some
        }),
{
    if item.action is Create && talk.hub.len() > 0 {
        assert(talk.hub[0] is Create);
    }
}

/// Whether a run of git holds a push to `remote` that took a branch along and
/// went through.
pub open spec fn pushed_to(events: Seq<GitEvent>, remote: Seq<char>, branch: Seq<char>) -> bool {
    exists|m: int|
        0 <= m < events.len() && (
        #[trigger] events[m] matches GitEvent::Push { remote: to, branches, reply: Ok(_) } && to
            == remote && branches.contains(branch))
}

/// What a submission does on GitHub: every pull request that it opens is a draft
/// exactly where drafts are asked for, and is for a branch of the stack that git
/// pushed to the remote asked for. It is recorded for that branch. Nothing is
/// pushed anywhere else.
#[verifier::rlimit(40)]
pub proof fn law_submit_opens_as_asked(
    talk: SubmitTalk,
    before: StackFileView,
    args: SubmitArgs,
    now: Seq<char>,
    after: StackFileView,
    r: Result<(), StackError>,
    report: ReportView,
)
    requires
        submits(talk, before, args, now, after, r, report),
    ensures
        forall|i: int|
            0 <= i < talk.hub().len() ==> (
            #[trigger] talk.hub()[i] matches HubEvent::Create { call, reply } ==> {
                &&& call.draft == args.draft
                &&& pushed_to(talk.git(), args.remote@, call.head)
                &&& exists|s: int, j: int|
                    #![trigger after.stacks[s].branches[j]]
                    0 <= s < after.stacks.len() && 0 <= j < after.stacks[s].branches.len()
                        && after.stacks[s].branches[j].branch == call.head && (reply matches Ok(info)
                        ==> (after.stacks[s].branches[j].pull_request matches Some(p) && p.number
                        == info.number && pr_refresh::says(p, info@)))
            }),
        forall|i: int|
            0 <= i < talk.git().len() ==> (
            #[trigger] talk.git()[i] matches GitEvent::Push { remote, .. } ==> remote
                == args.remote@),
        report.pushed matches Some(n) ==> (n > 0 ==> exists|i: int|
            0 <= i < talk.git().len() && (
            #[trigger] talk.git()[i] matches GitEvent::Push { branches, reply: Ok(_), .. }
                && branches.len() == n)),
{
    if let GitEvent::CurrentBranch { reply: Ok(Some(branch)) } = talk.current {
        seqs::lemma_first_where_is(before.stacks, holding(branch@));
        if let Some(index) = seqs::first_where(before.stacks, holding(branch@)) {
            let stack = before.stacks[index];
            let mid = match talk.refresh {
                Some(t) => t.result(stack, now),
                None => stack,
            };
            let asked: nat = match talk.refresh {
                Some(t) => t.events().len(),
                None => 0,
            };
            let hub = talk.hub();
            let git = talk.git();
            assert forall|i: int| 0 <= i < asked implies !(#[trigger] hub[i] is Create) by {
                let t = talk.refresh->0;
                pr_refresh::law_refresh_only_looks(t, stack, i);
                assert(hub[i] == t.events()[i]);
            }
            if let Some(s) = talk.stack {
                let plan = s.plan(mid);
                lemma_planning_told(mid, s.planning);
                lemma_planning_kinds(mid, s.planning);
                lemma_acted_names(plan.items);
                let names = acted_names(plan.items);
                if s.push.len() > 0 {
                    assert(git[1 + s.planning.len() as int] == s.push[0]);
                }
                assert forall|i: int| 0 <= i < hub.len() implies (
                #[trigger] hub[i] matches HubEvent::Create { call, reply } ==> {
                    &&& call.draft == args.draft
                    &&& pushed_to(git, args.remote@, call.head)
                    &&& exists|s: int, j: int|
                        #![trigger after.stacks[s].branches[j]]
                        0 <= s < after.stacks.len() && 0 <= j < after.stacks[s].branches.len()
                            && after.stacks[s].branches[j].branch == call.head && (
                        reply matches Ok(info) ==> (
                        after.stacks[s].branches[j].pull_request matches Some(p) && p.number
                            == info.number && pr_refresh::says(p, info@)))
                }) by {
                    if hub[i] is Create {
                        assert(hub[i] == hub_events(s.items)[i - asked]);
                        let (j, k) = lemma_hub_event(s.items, i - asked);
                        let item = plan.items[j];
                        let t = s.items[j];
                        assert(t.complete(item, args.draft));
                        assert(item_told(mid, item, s.planning));
                        let b = mid.branches[j];
                        law_item_opens_as_asked(t, item, args.draft, b);
                        assert(t.hub[k] == hub[i]);
                        assert(names.contains(item.branch));
                        assert(after.stacks[index].branches[j] == t.result(item, b));
                    }
                }
                assert forall|i: int| 0 <= i < git.len() implies (
                #[trigger] git[i] matches GitEvent::Push { remote, .. } ==> remote
                    == args.remote@) by {
                    let p = 1 + s.planning.len();
                    if i == 0 {
                        assert(git[0] == talk.current);
                    } else if i < p {
                        assert(git[i] == s.planning[i - 1]);
                    } else if i < p + s.push.len() {
                        assert(git[i] == s.push[i - p]);
                    } else {
                        assert(git[i] == git_events(s.items)[i - p - s.push.len()]);
                        let (j, k) = lemma_git_event(s.items, i - p - s.push.len());
                        assert(s.items[j].complete(plan.items[j], args.draft));
                    }
                }
            }
        }
    }
}

/// After a submission that went through, every branch of the current stack has a
/// pull request, unless git gave no commits for it; the time is recorded, and the
/// report says of every branch what was done. No other stack changes.
#[verifier::rlimit(40)]
pub proof fn law_submitted_is_proposed(
    talk: SubmitTalk,
    before: StackFileView,
    args: SubmitArgs,
    now: Seq<char>,
    after: StackFileView,
    r: Result<(), StackError>,
    report: ReportView,
    index: int,
)
    requires
        submits(talk, before, args, now, after, r, report),
        r is Ok,
        talk.git()[0] matches GitEvent::CurrentBranch { reply: Ok(Some(current)) } && 0 <= index
            < before.stacks.len() && before.stacks[index].has(current@) && forall|s: int|
            0 <= s < index ==> !(#[trigger] before.stacks[s]).has(current@),
    ensures
        after.stacks.len() == before.stacks.len(),
        after.stacks[index].last_refreshed_at == Some(now),
        after.stacks[index].branches.len() == before.stacks[index].branches.len(),
        report.pushed is Some,
        report.done.len() == before.stacks[index].branches.len(),
        forall|j: int|
            0 <= j < report.done.len() ==> (#[trigger] report.done[j]).branch
                == before.stacks[index].branches[j].branch && report.done[j].branch_index == j,
        forall|j: int|
            0 <= j < before.stacks[index].branches.len() ==> {
                let is = #[trigger] after.stacks[index].branches[j];
                &&& is.branch == before.stacks[index].branches[j].branch
                &&& is.pull_request is Some || exists|base: Seq<char>|
                    #[trigger] asked_commits(talk.git(), base, is.branch, false)
            },
        forall|s: int|
            0 <= s < before.stacks.len() && s != index ==> #[trigger] after.stacks[s]
                == before.stacks[s],
{
    let stack = before.stacks[index];
    assert(talk.git()[0] == talk.current);
    let current = talk.current->CurrentBranch_reply->Ok_0->0@;
    seqs::lemma_first_where(before.stacks, holding(current), index);
    let mid = match talk.refresh {
        Some(t) => t.result(stack, now),
        None => stack,
    };
    if let Some(t) = talk.refresh {
        pr_refresh::law_refresh_keeps_branches(t, stack, now);
    }
    let s = talk.stack->0;
    let plan = s.plan(mid);
    lemma_planning_told(mid, s.planning);
    assert forall|j: int| 0 <= j < report.done.len() implies (#[trigger] report.done[j]).branch
        == stack.branches[j].branch && report.done[j].branch_index == j by {
        assert(report.done[j] == plan.items[j]);
        assert(item_told(mid, plan.items[j], s.planning));
        assert(mid.branches[j].branch == stack.branches[j].branch);
    }
    assert forall|j: int| 0 <= j < stack.branches.len() implies ({
        let is = #[trigger] after.stacks[index].branches[j];
        &&& is.branch == stack.branches[j].branch
        &&& is.pull_request is Some || exists|base: Seq<char>|
            #[trigger] asked_commits(talk.git(), base, is.branch, false)
    }) by {
        let item = plan.items[j];
        let b = mid.branches[j];
        assert(item_told(mid, item, s.planning));
        assert(s.items[j].complete(item, args.draft));
        if j == s.items.len() - 1 {
            assert(s.items[j] == s.items.last());
        }
        assert(s.items[j].failed(item) is None);
        law_item_opens_as_asked(s.items[j], item, args.draft, b);
        assert(after.stacks[index].branches[j] == s.items[j].result(item, b));
        if b.pull_request is None && item.action is SkipEmpty {
            let base = choose|base: Seq<char>|
                #[trigger] asked_commits(s.planning, base, b.branch, false);
            let k = choose|k: int|
                0 <= k < s.planning.len() && (
                #[trigger] s.planning[k] matches GitEvent::Commits {
                    base: x,
                    branch: n,
                    reply: Ok(commits),
                } && x == base && n == b.branch && (commits@.len() > 0) == false);
            assert(talk.git()[k + 1] == s.planning[k]);
            assert(asked_commits(talk.git(), base, b.branch, false));
        }
        if b.pull_request is Some && item.action is RefreshExisting {
            assert(s.items[j].hub[0] is View);
        }
    }
}

/// Planning only asks for commits.
pub proof fn lemma_planning_kinds(stack: StackView, events: Seq<GitEvent>)
    requires
        Planning::start(stack).follows(events),
    ensures
        forall|i: int| 0 <= i < events.len() ==> #[trigger] events[i] is Commits,
    decreases events.len(),
{
    if events.len() > 0 {
        let rest = events.drop_last();
        lemma_planning_kinds(stack, rest);
        assert forall|i: int| 0 <= i < events.len() implies #[trigger] events[i] is Commits by {
            if i < rest.len() {
                assert(events[i] == rest[i]);
            }
        }
    }
}

/// The branches that are pushed are those of the stack that are not merged and
/// that have a pull request or have commits, and all of them.
pub proof fn law_push_takes_what_is_proposed(
    s: StackSubmission,
    before: StackView,
    remote: Seq<char>,
    draft: bool,
    j: int,
)
    requires
        s.complete(before, remote, draft),
        0 <= j < before.branches.len(),
        s.push.len() > 0,
    ensures
        s.push[0] matches GitEvent::Push { remote: to, branches, .. } && {
            &&& to == remote
            &&& branches.contains(before.branches[j].branch) || match before.branches[j].pull_request {
                Some(p) => p.merged,
                None => exists|base: Seq<char>|
                    #[trigger] asked_commits(s.planning, base, before.branches[j].branch, false),
            }
            &&& forall|k: int|
                0 <= k < branches.len() ==> exists|i: int|
                    0 <= i < before.branches.len() && (#[trigger] before.branches[i]).branch
                        == #[trigger] branches[k] && !(
                    before.branches[i].pull_request matches Some(p) && p.merged)
        },
{
    let plan = s.plan(before);
    lemma_planning_told(before, s.planning);
    lemma_acted_names(plan.items);
    let item = plan.items[j];
    assert(item_told(before, item, s.planning));
    let names = acted_names(plan.items);
    assert forall|k: int| 0 <= k < names.len() implies exists|i: int|
        0 <= i < before.branches.len() && (#[trigger] before.branches[i]).branch
            == #[trigger] names[k] && !(before.branches[i].pull_request matches Some(p)
            && p.merged) by {
        assert(acted_on(plan.items, names[k]));
        let i = choose|i: int|
            0 <= i < plan.items.len() && (#[trigger] plan.items[i]).branch == names[k] && (
            plan.items[i].action is Create || plan.items[i].action is RefreshExisting);
        assert(item_told(before, plan.items[i], s.planning));
        assert(before.branches[i].branch == names[k]);
    }
}

/// A submission looks for pull requests by name first, where a branch of the stack
/// has none, unless that was declined; then it looks for none.
pub proof fn law_submit_refreshes_unless_declined(
    talk: SubmitTalk,
    before: StackFileView,
    index: int,
    args: SubmitArgs,
    now: Seq<char>,
    after: StackFileView,
    r: Result<(), StackError>,
    report: ReportView,
    j: int,
)
    requires
        submits_stack(talk, before, index, args, now, after, r, report),
        0 <= index < before.stacks.len(),
        0 <= j < before.stacks[index].branches.len(),
        before.stacks[index].branches[j].pull_request is None,
        forall|i: int|
            0 <= i < j ==> (
            #[trigger] before.stacks[index].branches[i]).pull_request is Some,
    ensures
        args.no_refresh ==> forall|i: int|
            0 <= i < talk.hub().len() ==> !(#[trigger] talk.hub()[i] is FindByHead),
        !args.no_refresh ==> talk.hub().len() > 0 && (
        talk.hub()[0] matches HubEvent::FindByHead { branch, .. } && branch
            == before.stacks[index].branches[j].branch),
{
    let stack = before.stacks[index];
    let hub = talk.hub();
    match talk.refresh {
        None => {
            if let Some(s) = talk.stack {
                let plan = s.plan(stack);
                assert forall|i: int| 0 <= i < hub.len() implies !(
                #[trigger] hub[i] is FindByHead) by {
                    assert(hub[i] == hub_events(s.items)[i]);
                    let (m, k) = lemma_hub_event(s.items, i);
                    assert(s.items[m].complete(plan.items[m], args.draft));
                }
            }
        },
        Some(t) => {
            pr_refresh::law_discovery_starts_at_first(t, stack, j);
            assert(hub[0] == t.events()[0]);
        },
    }
}

} // verus!
