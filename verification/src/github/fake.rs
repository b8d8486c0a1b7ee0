//! An in-memory `GitHub`: records what was asked to be opened, and answers
//! from the pull requests it was given.

use vstd::prelude::*;

use crate::domain::error::{Fault, StackError};
use crate::github::{
    best_pr, info_views, opt_info, CreateView, GitHub, HubEvent, PrInfoView, PrState,
    PullRequestInfo,
};
use crate::seqs;
use crate::text;

verus! {

/// One pull request, as it was asked for.
#[derive(Debug)]
pub struct CreateCall {
    pub head: String,
    pub base: String,
    pub title: String,
    pub body: String,
    pub draft: bool,
}

impl View for CreateCall {
    type V = CreateView;

    open spec fn view(&self) -> CreateView {
        CreateView {
            head: self.head@,
            base: self.base@,
            title: self.title@,
            body: self.body@,
            draft: self.draft,
        }
    }
}

impl Clone for CreateCall {
    fn clone(&self) -> (r: Self)
        ensures
            r == *self,
    {
        CreateCall {
            head: self.head.clone(),
            base: self.base.clone(),
            title: self.title.clone(),
            body: self.body.clone(),
            draft: self.draft,
        }
    }
}

/// The models of a list of calls.
pub open spec fn call_views(list: Seq<CreateCall>) -> Seq<CreateView> {
    list.map_values(|c: CreateCall| c@)
}

/// The fake. Pull requests are kept in the order of their numbers.
pub struct FakeGitHub {
    next_number: u64,
    prs: Vec<PullRequestInfo>,
    create_calls: Vec<CreateCall>,
    history: Ghost<Seq<HubEvent>>,
}

/// What the fake knows.
#[verifier::ext_equal]
pub struct FakeGitHubView {
    pub next_number: u64,
    pub prs: Seq<PrInfoView>,
    pub create_calls: Seq<CreateView>,
}

impl View for FakeGitHub {
    type V = FakeGitHubView;

    closed spec fn view(&self) -> FakeGitHubView {
        FakeGitHubView {
            next_number: self.next_number,
            prs: info_views(self.prs@),
            create_calls: call_views(self.create_calls@),
        }
    }
}

/// The pull requests numbered `number` or higher.
pub open spec fn from_number(number: u64) -> spec_fn(PrInfoView) -> bool {
    |p: PrInfoView| p.number >= number
}

/// The pull requests with this number.
pub open spec fn numbered(number: u64) -> spec_fn(PrInfoView) -> bool {
    |p: PrInfoView| p.number == number
}

/// The open pull requests.
pub open spec fn open_ones() -> spec_fn(PrInfoView) -> bool {
    |p: PrInfoView| p.state == PrState::Open
}

/// `list` with `pr` at its place: instead of the one with its number, or else
/// before the first with a higher one.
pub open spec fn placed(list: Seq<PrInfoView>, pr: PrInfoView) -> Seq<PrInfoView> {
    match seqs::first_where(list, from_number(pr.number)) {
        Some(k) => if list[k].number == pr.number {
            list.update(k, pr)
        } else {
            list.insert(k, pr)
        },
        None => list.push(pr),
    }
}

/// Each number once, in ascending order.
pub open spec fn ascending(list: Seq<PrInfoView>) -> bool {
    forall|i: int, j: int|
        0 <= i < j < list.len() ==> (#[trigger] list[i]).number < (#[trigger] list[j]).number
}

/// Placing a pull request keeps the order, and it can then be found.
pub proof fn lemma_placed(list: Seq<PrInfoView>, pr: PrInfoView)
    requires
        ascending(list),
    ensures
        ascending(placed(list, pr)),
        placed(list, pr).contains(pr),
{
    seqs::lemma_first_where_is(list, from_number(pr.number));
    let after = placed(list, pr);
    match seqs::first_where(list, from_number(pr.number)) {
        Some(k) => {
            assert(after[k] == pr);
            if list[k].number != pr.number {
                assert forall|i: int, j: int| 0 <= i < j < after.len() implies (
                #[trigger] after[i]).number < (#[trigger] after[j]).number by {
                    let a = if i < k {
                        i
                    } else {
                        i - 1
                    };
                    let b = if j < k {
                        j
                    } else {
                        j - 1
                    };
                    if i != k {
                        assert(after[i] == list[a]);
                    }
                    if j != k {
                        assert(after[j] == list[b]);
                    }
                    if i < k {
                        assert(!from_number(pr.number)(list[i]));
                    }
                }
            } else {
                assert forall|i: int| 0 <= i < k implies (#[trigger] list[i]).number
                    < pr.number by {
                    assert(!from_number(pr.number)(list[i]));
                }
            }
        },
        None => {
            assert(after[list.len() as int] == pr);
            assert forall|i: int| 0 <= i < list.len() implies (#[trigger] list[i]).number
                < pr.number by {
                assert(!from_number(pr.number)(list[i]));
            }
        },
    }
}

impl FakeGitHub {
    /// A fake without pull requests, whose first new one is numbered 100.
    pub fn new() -> (r: Self)
        ensures
            r@ == (FakeGitHubView {
                next_number: 100,
                prs: Seq::empty(),
                create_calls: Seq::empty(),
            }),
            r.history() == Seq::<HubEvent>::empty(),
    {
        let prs: Vec<PullRequestInfo> = Vec::new();
        let create_calls: Vec<CreateCall> = Vec::new();
        assert(info_views(prs@) =~= Seq::<PrInfoView>::empty());
        assert(call_views(create_calls@) =~= Seq::<CreateView>::empty());
        FakeGitHub { next_number: 100, prs, create_calls, history: Ghost(Seq::empty()) }
    }

    /// Add a pull request, in place of one with the same number.
    pub fn seed_pr(&mut self, pr: PullRequestInfo)
        ensures
            final(self)@ == (FakeGitHubView { prs: placed(old(self)@.prs, pr@), ..old(self)@ }),
            ascending(old(self)@.prs) ==> ascending(final(self)@.prs),
            final(self).history() == old(self).history(),
    {
        let ghost all = info_views(self.prs@);
        let ghost p = from_number(pr.number);
        let ghost model = pr@;
        proof {
            if ascending(all) {
                lemma_placed(all, model);
            }
        }
        let mut i: usize = 0;
        while i < self.prs.len() && self.prs[i].number < pr.number
            invariant
                i <= self.prs.len(),
                all == info_views(self.prs@),
                p == from_number(pr.number),
                forall|j: int| 0 <= j < i ==> !p(#[trigger] all[j]),
            decreases self.prs.len() - i,
        {
            assert(all[i as int] == self.prs@[i as int]@);
            i = i + 1;
        }
        let ghost before = self.prs@;
        if i < self.prs.len() {
            assert(all[i as int] == self.prs@[i as int]@);
            proof {
                seqs::lemma_first_where(all, p, i as int);
            }
            if self.prs[i].number == pr.number {
                self.prs.set(i, pr);
                assert(info_views(self.prs@) =~= all.update(i as int, model));
            } else {
                self.prs.insert(i, pr);
                assert(info_views(self.prs@) =~= all.insert(i as int, model));
            }
        } else {
            proof {
                seqs::lemma_first_where_none(all, p);
            }
            self.prs.push(pr);
            assert(info_views(self.prs@) =~= all.push(model));
        }
    }

    /// Every pull request that was asked to be opened.
    pub fn create_calls(&self) -> (r: Vec<CreateCall>)
        ensures
            call_views(r@) == self@.create_calls,
    {
        let mut out: Vec<CreateCall> = Vec::new();
        let mut i: usize = 0;
        while i < self.create_calls.len()
            invariant
                i <= self.create_calls.len(),
                out@ == self.create_calls@.take(i as int),
            decreases self.create_calls.len() - i,
        {
            out.push(self.create_calls[i].clone());
            i = i + 1;
        }
        assert(out@ =~= self.create_calls@);
        out
    }
}

impl Default for FakeGitHub {
    fn default() -> (r: Self)
        ensures
            r@ == (FakeGitHubView {
                next_number: 0,
                prs: Seq::empty(),
                create_calls: Seq::empty(),
            }),
            r.history() == Seq::<HubEvent>::empty(),
    {
        let mut fake = FakeGitHub::new();
        fake.next_number = 0;
        fake
    }
}

/// The pull request that the fake opens under a number.
pub open spec fn opened(number: u64, head: Seq<char>, base: Seq<char>) -> PrInfoView {
    PrInfoView {
        number,
        id: "PR_fake_"@ + text::decimal(number as nat),
        url: "https://github.com/fake/repo/pull/"@ + text::decimal(number as nat),
        state: PrState::Open,
        head_ref: head,
        base_ref: base,
        comment_count: 0,
        mergeable: None,
    }
}

impl GitHub for FakeGitHub {
    closed spec fn history(&self) -> Seq<HubEvent> {
        self.history@
    }

    fn create_pr(&mut self, head: &str, base: &str, title: &str, body: &str, draft: bool) -> (r:
        Result<PullRequestInfo, StackError>)
        ensures
            r matches Ok(p) && p@ == opened(old(self)@.next_number, head@, base@),
            final(self)@ == (FakeGitHubView {
                next_number: old(self)@.next_number.wrapping_add(1),
                prs: placed(old(self)@.prs, opened(old(self)@.next_number, head@, base@)),
                create_calls: old(self)@.create_calls.push(
                    (CreateView {
                        head: head@,
                        base: base@,
                        title: title@,
                        body: body@,
                        draft,
                    }),
                ),
            }),
            ascending(old(self)@.prs) ==> ascending(final(self)@.prs),
    {
        let ghost calls = call_views(self.create_calls@);
        let call = CreateCall {
            head: head.to_string(),
            base: base.to_string(),
            title: title.to_string(),
            body: body.to_string(),
            draft,
        };
        let ghost model = call@;
        self.create_calls.push(call);
        assert(call_views(self.create_calls@) =~= calls.push(model));
        let n: u64 = self.next_number;
        self.next_number = n.wrapping_add(1);
        let numeral = text::to_decimal(n);
        let pr = PullRequestInfo {
            number: n,
            id: text::cat("PR_fake_", numeral.as_str()),
            url: text::cat("https://github.com/fake/repo/pull/", numeral.as_str()),
            state: PrState::Open,
            head_ref: head.to_string(),
            base_ref: base.to_string(),
            comment_count: 0,
            mergeable: None,
        };
        self.seed_pr(pr.clone());
        let r = Ok(pr);
        self.history = Ghost(self.history@.push(HubEvent::Create { call: model, reply: r }));
        r
    }

    fn view_pr(&mut self, number: u64) -> (r: Result<PullRequestInfo, StackError>)
        ensures
            final(self)@ == old(self)@,
            match seqs::first_where(old(self)@.prs, numbered(number)) {
                Some(k) => r matches Ok(p) && p@ == old(self)@.prs[k],
                None => r matches Err(e) && e@ == Fault::GitHubApi(
                    "PR #"@ + text::decimal(number as nat) + " not found"@,
                ),
            },
    {
        let ghost all = info_views(self.prs@);
        let ghost p = numbered(number);
        let mut i: usize = 0;
        while i < self.prs.len() && self.prs[i].number != number
            invariant
                i <= self.prs.len(),
                all == info_views(self.prs@),
                p == numbered(number),
                forall|j: int| 0 <= j < i ==> !p(#[trigger] all[j]),
            decreases self.prs.len() - i,
        {
            assert(all[i as int] == self.prs@[i as int]@);
            i = i + 1;
        }
        let r = if i < self.prs.len() {
            assert(all[i as int] == self.prs@[i as int]@);
            proof {
                seqs::lemma_first_where(all, p, i as int);
            }
            Ok(self.prs[i].clone())
        } else {
            proof {
                seqs::lemma_first_where_none(all, p);
            }
            let numeral = text::to_decimal(number);
            Err(StackError::GitHubApi(text::cat3("PR #", numeral.as_str(), " not found")))
        };
        self.history = Ghost(self.history@.push(HubEvent::View { number, reply: r }));
        r
    }

    fn find_pr_by_head(&mut self, branch: &str) -> (r: Result<
        Option<PullRequestInfo>,
        StackError,
    >)
        ensures
            final(self)@ == old(self)@,
            r matches Ok(p) && opt_info(p) == crate::github::best_for(old(self)@.prs, branch@),
    {
        let r = Ok(best_pr(&self.prs, branch));
        self.history = Ghost(
            self.history@.push(HubEvent::FindByHead { branch: branch@, reply: r }),
        );
        r
    }

    fn list_my_open_prs(&mut self) -> (r: Result<Vec<PullRequestInfo>, StackError>)
        ensures
            final(self)@ == old(self)@,
            r matches Ok(list) && info_views(list@) == old(self)@.prs.filter(open_ones()),
    {
        let ghost all = info_views(self.prs@);
        let mut out: Vec<PullRequestInfo> = Vec::new();
        let mut i: usize = 0;
        assert(info_views(out@) =~= all.take(0).filter(open_ones())) by {
            reveal(Seq::filter);
        }
        while i < self.prs.len()
            invariant
                i <= self.prs.len(),
                all == info_views(self.prs@),
                info_views(out@) == all.take(i as int).filter(open_ones()),
            decreases self.prs.len() - i,
        {
            proof {
                seqs::lemma_filter_step(all, i as int, open_ones());
            }
            let ghost before = info_views(out@);
            if self.prs[i].state == PrState::Open {
                out.push(self.prs[i].clone());
                assert(info_views(out@) =~= before.push(all[i as int]));
            }
            i = i + 1;
        }
        assert(all.take(self.prs.len() as int) =~= all);
        let r = Ok(out);
        self.history = Ghost(self.history@.push(HubEvent::ListMine { reply: r }));
        r
    }
}

} // verus!
