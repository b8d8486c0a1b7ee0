//! What is asked of GitHub, and what its answers mean.
//!
//! `GhCli` says which arguments the `gh` binary is run with; `GitHub` is the
//! port that the operations take.

use vstd::prelude::*;

use crate::domain::error::{Fault, StackError};
use crate::seqs;
use crate::text;

pub mod fake;

verus! {

/// What the operations need to know of a pull request.
#[derive(Debug, PartialEq, Eq)]
pub struct PullRequestInfo {
    pub number: u64,
    pub id: String,
    pub url: String,
    pub state: PrState,
    pub head_ref: String,
    pub base_ref: String,
    /// Comments of every kind on the pull request.
    pub comment_count: u64,
    /// `None` where GitHub does not know, `Some(false)` where there are
    /// conflicts.
    pub mergeable: Option<bool>,
}

#[derive(Debug, Clone, Copy, PartialEq, Eq, Structural)]
pub enum PrState {
    Open,
    Merged,
    Closed,
}

#[verifier::ext_equal]
pub struct PrInfoView {
    pub number: u64,
    pub id: Seq<char>,
    pub url: Seq<char>,
    pub state: PrState,
    pub head_ref: Seq<char>,
    pub base_ref: Seq<char>,
    pub comment_count: u64,
    pub mergeable: Option<bool>,
}

impl View for PullRequestInfo {
    type V = PrInfoView;

    open spec fn view(&self) -> PrInfoView {
        PrInfoView {
            number: self.number,
            id: self.id@,
            url: self.url@,
            state: self.state,
            head_ref: self.head_ref@,
            base_ref: self.base_ref@,
            comment_count: self.comment_count,
            mergeable: self.mergeable,
        }
    }
}

impl Clone for PullRequestInfo {
    fn clone(&self) -> (r: Self)
        ensures
            r == *self,
    {
        PullRequestInfo {
            number: self.number,
            id: self.id.clone(),
            url: self.url.clone(),
            state: self.state,
            head_ref: self.head_ref.clone(),
            base_ref: self.base_ref.clone(),
            comment_count: self.comment_count,
            mergeable: self.mergeable,
        }
    }
}

/// The models of a list of pull requests.
pub open spec fn info_views(list: Seq<PullRequestInfo>) -> Seq<PrInfoView> {
    list.map_values(|p: PullRequestInfo| p@)
}

/// What a new pull request is made of.
#[verifier::ext_equal]
pub struct CreateView {
    pub head: Seq<char>,
    pub base: Seq<char>,
    pub title: Seq<char>,
    pub body: Seq<char>,
    pub draft: bool,
}

/// A question put to GitHub, with the answer that came back.
#[allow(inconsistent_fields)]
pub enum HubEvent {
    Create { call: CreateView, reply: Result<PullRequestInfo, StackError> },
    View { number: u64, reply: Result<PullRequestInfo, StackError> },
    FindByHead { branch: Seq<char>, reply: Result<Option<PullRequestInfo>, StackError> },
    ListMine { reply: Result<Vec<PullRequestInfo>, StackError> },
}

/// The port that the operations consume. `history` is what was asked so far,
/// and answered; each call adds itself at the end. `RecordedGitHub` keeps it for
/// a backend that promises nothing.
pub trait GitHub {
    spec fn history(&self) -> Seq<HubEvent>;

    /// Open a pull request.
    fn create_pr(&mut self, head: &str, base: &str, title: &str, body: &str, draft: bool) -> (r:
        Result<PullRequestInfo, StackError>)
        ensures
            final(self).history() == old(self).history().push(
                (HubEvent::Create {
                    call: CreateView {
                        head: head@,
                        base: base@,
                        title: title@,
                        body: body@,
                        draft,
                    },
                    reply: r,
                }),
            ),
    ;

    /// The pull request of this number.
    fn view_pr(&mut self, number: u64) -> (r: Result<PullRequestInfo, StackError>)
        ensures
            final(self).history() == old(self).history().push(
                (HubEvent::View { number, reply: r }),
            ),
    ;

    /// The pull request that has this branch as its head.
    fn find_pr_by_head(&mut self, branch: &str) -> (r: Result<
        Option<PullRequestInfo>,
        StackError,
    >)
        ensures
            final(self).history() == old(self).history().push(
                (HubEvent::FindByHead { branch: branch@, reply: r }),
            ),
    ;

    /// Every open pull request of the authenticated user.
    fn list_my_open_prs(&mut self) -> (r: Result<Vec<PullRequestInfo>, StackError>)
        ensures
            final(self).history() == old(self).history().push((HubEvent::ListMine { reply: r })),
    ;
}

/// What carries out the calls of the port. Nothing is promised of the answers.
pub trait GitHubBackend {
    fn create_pr(
        &mut self,
        head: &str,
        base: &str,
        title: &str,
        body: &str,
        draft: bool,
    ) -> Result<PullRequestInfo, StackError>;

    fn view_pr(&mut self, number: u64) -> Result<PullRequestInfo, StackError>;

    fn find_pr_by_head(&mut self, branch: &str) -> Result<Option<PullRequestInfo>, StackError>;

    fn list_my_open_prs(&mut self) -> Result<Vec<PullRequestInfo>, StackError>;
}

/// A backend together with the history of what it was asked. Whatever it
/// answers, this is a port that keeps its promises.
pub struct RecordedGitHub<B> {
    pub backend: B,
    pub history: Ghost<Seq<HubEvent>>,
}

impl<B: GitHubBackend> RecordedGitHub<B> {
    pub fn new(backend: B) -> (r: Self)
        ensures
            r.backend == backend,
            r.history() == Seq::<HubEvent>::empty(),
    {
        RecordedGitHub { backend, history: Ghost(Seq::empty()) }
    }
}

impl<B: GitHubBackend> GitHub for RecordedGitHub<B> {
    open spec fn history(&self) -> Seq<HubEvent> {
        self.history@
    }

    fn create_pr(&mut self, head: &str, base: &str, title: &str, body: &str, draft: bool) -> (r:
        Result<PullRequestInfo, StackError>) {
        let r = self.backend.create_pr(head, base, title, body, draft);
        let ghost call = CreateView { head: head@, base: base@, title: title@, body: body@, draft };
        self.history = Ghost(self.history@.push(HubEvent::Create { call, reply: r }));
        r
    }

    fn view_pr(&mut self, number: u64) -> (r: Result<PullRequestInfo, StackError>) {
        let r = self.backend.view_pr(number);
        self.history = Ghost(self.history@.push(HubEvent::View { number, reply: r }));
        r
    }

    fn find_pr_by_head(&mut self, branch: &str) -> (r: Result<
        Option<PullRequestInfo>,
        StackError,
    >) {
        let r = self.backend.find_pr_by_head(branch);
        self.history = Ghost(self.history@.push(HubEvent::FindByHead { branch: branch@, reply: r }));
        r
    }

    fn list_my_open_prs(&mut self) -> (r: Result<Vec<PullRequestInfo>, StackError>) {
        let r = self.backend.list_my_open_prs();
        self.history = Ghost(self.history@.push(HubEvent::ListMine { reply: r }));
        r
    }
}

/// The command lines of the `gh` binary for one checkout.
pub struct GhCli {
    cwd: String,
}

impl GhCli {
    /// The directory that `gh` runs in.
    pub closed spec fn dir(self) -> Seq<char> {
        self.cwd@
    }

    pub fn new(cwd: &str) -> (r: Self)
        ensures
            r.dir() == cwd@,
    {
        GhCli { cwd: cwd.to_string() }
    }

    /// The directory that `gh` runs in.
    pub fn cwd(&self) -> (r: &str)
        ensures
            r@ == self.dir(),
    {
        self.cwd.as_str()
    }

    /// Open a pull request.
    pub fn create_pr(
        &self,
        head: &str,
        base: &str,
        title: &str,
        body: &str,
        draft: bool,
    ) -> (r: Vec<String>)
        ensures
            text::views(r@) == seq![
                "pr"@,
                "create"@,
                "--head"@,
                head@,
                "--base"@,
                base@,
                "--title"@,
                title@,
                "--body"@,
                body@,
            ] + if draft {
                seq!["--draft"@]
            } else {
                Seq::empty()
            },
    {
        let mut args = text::own_all(
            &["pr", "create", "--head", head, "--base", base, "--title", title, "--body", body],
        );
        let ghost before = text::views(args@);
        if draft {
            args.push("--draft".to_string());
            assert(text::views(args@) =~= before.push("--draft"@));
        }
        args
    }

    /// Show the pull request of this number.
    pub fn view_pr(&self, number: u64) -> (r: Vec<String>)
        ensures
            text::views(r@) == seq![
                "pr"@,
                "view"@,
                text::decimal(number as nat),
                "--json"@,
                "number,url,id,state,headRefName,baseRefName,comments,reviews,mergeable"@,
            ],
    {
        let n = text::to_decimal(number);
        text::own_all(
            &[
                "pr",
                "view",
                n.as_str(),
                "--json",
                "number,url,id,state,headRefName,baseRefName,comments,reviews,mergeable",
            ],
        )
    }

    /// List the pull requests that have this branch as their head.
    pub fn find_pr_by_head(&self, branch: &str) -> (r: Vec<String>)
        ensures
            text::views(r@) == seq![
                "pr"@,
                "list"@,
                "--head"@,
                branch@,
                "--state"@,
                "all"@,
                "--json"@,
                "number,url,id,state,headRefName,baseRefName,comments,reviews,mergeable"@,
            ],
    {
        text::own_all(
            &[
                "pr",
                "list",
                "--head",
                branch,
                "--state",
                "all",
                "--json",
                "number,url,id,state,headRefName,baseRefName,comments,reviews,mergeable",
            ],
        )
    }

    /// List the comments in the review threads of a pull request, one to a line.
    pub fn review_comments(&self, number: u64) -> (r: Vec<String>)
        ensures
            text::views(r@) == seq![
                "api"@,
                "--paginate"@,
                "repos/{owner}/{repo}/pulls/"@ + text::decimal(number as nat) + "/comments"@,
                "--jq"@,
                ".[].id"@,
            ],
    {
        let n = text::to_decimal(number);
        let path = text::cat3("repos/{owner}/{repo}/pulls/", n.as_str(), "/comments");
        text::own_all(&["api", "--paginate", path.as_str(), "--jq", ".[].id"])
    }

    /// List the open pull requests of the authenticated user.
    pub fn list_my_open_prs(&self) -> (r: Vec<String>)
        ensures
            text::views(r@) == seq![
                "pr"@,
                "list"@,
                "--author"@,
                "@me"@,
                "--state"@,
                "open"@,
                "--limit"@,
                "1000"@,
                "--json"@,
                "number,url,id,state,headRefName,baseRefName,comments,reviews,mergeable"@,
            ],
    {
        text::own_all(
            &[
                "pr",
                "list",
                "--author",
                "@me",
                "--state",
                "open",
                "--limit",
                "1000",
                "--json",
                "number,url,id,state,headRefName,baseRefName,comments,reviews,mergeable",
            ],
        )
    }
}

/// The state that GitHub names.
pub fn read_state(state: &str) -> (r: Result<PrState, StackError>)
    ensures
        if state@ == "OPEN"@ {
            r matches Ok(s) && s == PrState::Open
        } else if state@ == "MERGED"@ {
            r matches Ok(s) && s == PrState::Merged
        } else if state@ == "CLOSED"@ {
            r matches Ok(s) && s == PrState::Closed
        } else {
            r matches Err(e) && e@ == Fault::GitHubApi("unknown PR state: "@ + state@)
        },
{
    if text::same(state, "OPEN") {
        Ok(PrState::Open)
    } else if text::same(state, "MERGED") {
        Ok(PrState::Merged)
    } else if text::same(state, "CLOSED") {
        Ok(PrState::Closed)
    } else {
        Err(StackError::GitHubApi(text::cat("unknown PR state: ", state)))
    }
}

/// The lines that hold something.
pub open spec fn filled() -> spec_fn(Seq<char>) -> bool {
    |line: Seq<char>| text::trimmed(line).len() > 0
}

/// How many comments `gh` printed, one to a line.
pub fn read_review_comments(stdout: &str) -> (r: usize)
    ensures
        r == text::pieces(stdout@, '\n').filter(filled()).len(),
{
    let lines = text::split(stdout, '\n');
    let ghost all = text::views(lines@);
    let mut n: usize = 0;
    let mut i: usize = 0;
    assert(all.take(0).filter(filled()).len() == 0) by {
        reveal(Seq::filter);
    }
    while i < lines.len()
        invariant
            n <= i <= lines@.len(),
            all == text::views(lines@),
            n == all.take(i as int).filter(filled()).len(),
        decreases lines.len() - i,
    {
        proof {
            seqs::lemma_filter_step(all, i as int, filled());
            assert(all[i as int] == lines@[i as int]@);
        }
        if !text::trim(lines[i].as_str()).as_str().is_empty() {
            n = n + 1;
        }
        i = i + 1;
    }
    assert(all.take(lines@.len() as int) =~= all);
    n
}

/// How many comments a pull request has: those on it, its reviews, and those in
/// its review threads. Lists that fit in memory never outgrow the sum.
pub fn comment_total(comments: usize, reviews: usize, inline: usize) -> (r: u64)
    requires
        comments + reviews + inline <= u64::MAX,
    ensures
        r == comments + reviews + inline,
{
    comments as u64 + reviews as u64 + inline as u64
}

/// The merge check that GitHub names: anything but these two is unknown.
pub fn read_mergeable(mergeable: &str) -> (r: Option<bool>)
    ensures
        r == (if mergeable@ == "MERGEABLE"@ {
            Some(true)
        } else if mergeable@ == "CONFLICTING"@ {
            Some(false)
        } else {
            None
        }),
{
    proof {
        reveal_strlit("MERGEABLE");
        reveal_strlit("CONFLICTING");
    }
    if text::same(mergeable, "MERGEABLE") {
        Some(true)
    } else if text::same(mergeable, "CONFLICTING") {
        Some(false)
    } else {
        None
    }
}

/// The number of the pull request that `gh pr create` opened: the last path
/// segment of the URL it printed.
pub fn read_created_number(stdout: &str) -> (r: Result<u64, StackError>)
    ensures
        match text::number_of(text::pieces(text::trimmed(stdout@), '/').last()) {
            Some(n) => r matches Ok(m) && m == n,
            None => r matches Err(e) && e@ == Fault::GitHubApi(
                "could not parse PR number from: "@ + text::trimmed(stdout@),
            ),
        },
{
    let url = text::trim(stdout);
    let parts = text::split(url.as_str(), '/');
    let last: usize = parts.len() - 1;
    assert(text::views(parts@).last() == parts@[last as int]@);
    match text::parse_number(parts[last].as_str()) {
        Some(n) => Ok(n),
        None => Err(
            StackError::GitHubApi(text::cat("could not parse PR number from: ", url.as_str())),
        ),
    }
}

/// The failure of a `gh` command.
pub fn command_failed(stderr: &str) -> (r: StackError)
    ensures
        r@ == Fault::GitHubApi(text::trimmed(stderr@)),
{
    StackError::GitHubApi(text::trim(stderr))
}

/// How eagerly a pull request stands for its branch: open ones first.
pub open spec fn rank(state: PrState) -> int {
    match state {
        PrState::Open => 0,
        PrState::Merged => 1,
        PrState::Closed => 2,
    }
}

/// Whether `a` stands for its branch rather than `b`: by state, and among
/// equals the higher number.
pub open spec fn preferred(a: PrInfoView, b: PrInfoView) -> bool {
    rank(a.state) < rank(b.state) || (rank(a.state) == rank(b.state) && a.number > b.number)
}

/// The pull request that stands for a branch.
pub open spec fn best_for(list: Seq<PrInfoView>, head: Seq<char>) -> Option<PrInfoView>
    decreases list.len(),
{
    if list.len() == 0 {
        None
    } else {
        match best_for(list.drop_last(), head) {
            Some(b) => if list.last().head_ref == head && preferred(list.last(), b) {
                Some(list.last())
            } else {
                Some(b)
            },
            None => if list.last().head_ref == head {
                Some(list.last())
            } else {
                None
            },
        }
    }
}

fn state_rank(s: PrState) -> (r: u8)
    ensures
        r == rank(s),
{
    match s {
        PrState::Open => 0,
        PrState::Merged => 1,
        PrState::Closed => 2,
    }
}

/// The model of an optional pull request.
pub open spec fn opt_info(o: Option<PullRequestInfo>) -> Option<PrInfoView> {
    match o {
        Some(p) => Some(p@),
        None => None,
    }
}

/// The pull request that stands for a branch: an open one rather than a merged
/// one rather than a closed one, and among those the highest number.
pub fn best_pr(list: &Vec<PullRequestInfo>, head: &str) -> (r: Option<PullRequestInfo>)
    ensures
        opt_info(r) == best_for(info_views(list@), head@),
{
    let ghost all = info_views(list@);
    let mut best: Option<usize> = None;
    let mut i: usize = 0;
    while i < list.len()
        invariant
            i <= list.len(),
            all == info_views(list@),
            best matches Some(k) ==> k < i,
            best_for(all.take(i as int), head@) == (match best {
                Some(k) => Some(all[k as int]),
                None => None,
            }),
        decreases list.len() - i,
    {
        assert(all.take(i + 1).drop_last() =~= all.take(i as int));
        assert(all[i as int] == list@[i as int]@);
        if text::same(list[i].head_ref.as_str(), head) {
            match best {
                Some(k) => {
                    assert(all[k as int] == list@[k as int]@);
                    let a: u8 = state_rank(list[i].state);
                    let b: u8 = state_rank(list[k].state);
                    if a < b || (a == b && list[i].number > list[k].number) {
                        best = Some(i);
                    }
                },
                None => {
                    best = Some(i);
                },
            }
        }
        i = i + 1;
    }
    assert(all.take(list.len() as int) =~= all);
    match best {
        Some(k) => Some(list[k].clone()),
        None => None,
    }
}

/// What stands for a branch has that branch as its head, and nothing in the
/// list is preferred to it; a branch without one is the head of none.
pub proof fn law_best_is_preferred(list: Seq<PrInfoView>, head: Seq<char>)
    ensures
        match best_for(list, head) {
            Some(b) => list.contains(b) && b.head_ref == head && forall|i: int|
                0 <= i < list.len() && (#[trigger] list[i]).head_ref == head ==> !preferred(
                    list[i],
                    b,
                ),
            None => forall|i: int| 0 <= i < list.len() ==> (#[trigger] list[i]).head_ref != head,
        },
    decreases list.len(),
{
    if list.len() > 0 {
        let rest = list.drop_last();
        law_best_is_preferred(rest, head);
        assert forall|i: int| 0 <= i < list.len() - 1 implies #[trigger] list[i] == rest[i] by {}
        match best_for(rest, head) {
            Some(b) => {
                let k = choose|k: int| 0 <= k < rest.len() && rest[k] == b;
                assert(list[k] == b);
                assert(list[list.len() - 1] == list.last());
            },
            None => {
                assert(list[list.len() - 1] == list.last());
            },
        }
    }
}

/// An open pull request stands for its branch rather than a merged one, that
/// rather than a closed one, and of two in the same state the one with the higher
/// number.
pub proof fn law_best_goes_by_state(list: Seq<PrInfoView>, head: Seq<char>, i: int)
    requires
        0 <= i < list.len(),
        list[i].head_ref == head,
    ensures
        best_for(list, head) matches Some(b) && {
            &&& list.contains(b) && b.head_ref == head
            &&& list[i].state == PrState::Open ==> b.state == PrState::Open
            &&& list[i].state == PrState::Merged ==> b.state != PrState::Closed
            &&& list[i].state == b.state ==> list[i].number <= b.number
        },
{
    law_best_is_preferred(list, head);
}

/// A line counts as a comment exactly where it holds something other than white
/// space, and lines are counted one by one.
pub proof fn law_comments_are_counted_by_line(a: Seq<char>, b: Seq<char>)
    ensures
        text::pieces(a + seq!['\n'] + b, '\n').filter(filled()).len() == text::pieces(
            a,
            '\n',
        ).filter(filled()).len() + text::pieces(b, '\n').filter(filled()).len(),
        filled()(a) <==> exists|i: int| 0 <= i < a.len() && !text::is_space(#[trigger] a[i]),
{
    text::law_pieces_of_both(a, b, '\n');
    crate::seqs::lemma_filter_both(text::pieces(a, '\n'), text::pieces(b, '\n'), filled());
    let (x, y) = text::law_trimmed_has_no_space_outside(a);
    let t = text::trimmed(a);
    if t.len() > 0 {
        assert(t[0] == a[x as int]);
    } else {
        assert forall|i: int| 0 <= i < a.len() implies text::is_space(#[trigger] a[i]) by {}
    }
}

} // verus!
