//! Stacks: linear sequences of branches, each based on the one below.

use vstd::prelude::*;

use crate::domain::error::{Fault, StackError};
use crate::git::{GitEvent, GitOps};
use crate::paths;
use crate::seqs;
use crate::text;

verus! {

pub const SCHEMA_VERSION: u32 = 1;

/// Every stack tracked for a repository.
#[derive(Debug, PartialEq, Eq)]
pub struct StackFile {
    pub schema_version: u32,
    pub repository: String,
    pub stacks: Vec<Stack>,
}

/// A chain of branches from the trunk upwards.
#[derive(Debug, PartialEq, Eq)]
pub struct Stack {
    pub prefix: Option<String>,
    pub trunk: Trunk,
    pub branches: Vec<Branch>,
    /// When pull-request data was last fetched, as an RFC 3339 timestamp;
    /// `None` where it never was.
    pub last_refreshed_at: Option<String>,
}

/// The branch that a stack or pool grows from.
#[derive(Debug, PartialEq, Eq)]
pub struct Trunk {
    pub branch: String,
    pub head: String,
}

/// One branch of a stack. `base` is the commit it was last based on.
#[derive(Debug, PartialEq, Eq)]
pub struct Branch {
    pub branch: String,
    pub head: Option<String>,
    pub base: String,
    pub pull_request: Option<PullRequest>,
}

/// The pull request of a stacked branch.
#[derive(Debug, PartialEq, Eq)]
pub struct PullRequest {
    pub number: u64,
    pub id: String,
    pub url: String,
    pub merged: bool,
}

#[verifier::ext_equal]
pub struct PullRequestView {
    pub number: u64,
    pub id: Seq<char>,
    pub url: Seq<char>,
    pub merged: bool,
}

#[verifier::ext_equal]
pub struct BranchView {
    pub branch: Seq<char>,
    pub head: Option<Seq<char>>,
    pub base: Seq<char>,
    pub pull_request: Option<PullRequestView>,
}

#[verifier::ext_equal]
pub struct TrunkView {
    pub branch: Seq<char>,
    pub head: Seq<char>,
}

#[verifier::ext_equal]
pub struct StackView {
    pub prefix: Option<Seq<char>>,
    pub trunk: TrunkView,
    pub branches: Seq<BranchView>,
    pub last_refreshed_at: Option<Seq<char>>,
}

#[verifier::ext_equal]
pub struct StackFileView {
    pub schema_version: u32,
    pub repository: Seq<char>,
    pub stacks: Seq<StackView>,
}

impl View for PullRequest {
    type V = PullRequestView;

    open spec fn view(&self) -> PullRequestView {
        PullRequestView {
            number: self.number,
            id: self.id@,
            url: self.url@,
            merged: self.merged,
        }
    }
}

/// The model of an optional pull request.
pub open spec fn pr_view(o: Option<PullRequest>) -> Option<PullRequestView> {
    match o {
        Some(p) => Some(p@),
        None => None,
    }
}

impl View for Branch {
    type V = BranchView;

    open spec fn view(&self) -> BranchView {
        BranchView {
            branch: self.branch@,
            head: text::opt_view(self.head),
            base: self.base@,
            pull_request: pr_view(self.pull_request),
        }
    }
}

impl View for Trunk {
    type V = TrunkView;

    open spec fn view(&self) -> TrunkView {
        TrunkView { branch: self.branch@, head: self.head@ }
    }
}

/// The models of a list of branches.
pub open spec fn branch_views(list: Seq<Branch>) -> Seq<BranchView> {
    list.map_values(|b: Branch| b@)
}

impl View for Stack {
    type V = StackView;

    open spec fn view(&self) -> StackView {
        StackView {
            prefix: text::opt_view(self.prefix),
            trunk: self.trunk@,
            branches: branch_views(self.branches@),
            last_refreshed_at: text::opt_view(self.last_refreshed_at),
        }
    }
}

/// The models of a list of stacks.
pub open spec fn stack_views(list: Seq<Stack>) -> Seq<StackView> {
    list.map_values(|s: Stack| s@)
}

impl View for StackFile {
    type V = StackFileView;

    open spec fn view(&self) -> StackFileView {
        StackFileView {
            schema_version: self.schema_version,
            repository: self.repository@,
            stacks: stack_views(self.stacks@),
        }
    }
}

impl Clone for PullRequest {
    fn clone(&self) -> (r: Self)
        ensures
            r == *self,
    {
        PullRequest {
            number: self.number,
            id: self.id.clone(),
            url: self.url.clone(),
            merged: self.merged,
        }
    }
}

impl Clone for Branch {
    fn clone(&self) -> (r: Self)
        ensures
            r == *self,
    {
        Branch {
            branch: self.branch.clone(),
            head: text::copy_opt(&self.head),
            base: self.base.clone(),
            pull_request: match &self.pull_request {
                Some(p) => Some(p.clone()),
                None => None,
            },
        }
    }
}

impl Clone for Trunk {
    fn clone(&self) -> (r: Self)
        ensures
            r == *self,
    {
        Trunk { branch: self.branch.clone(), head: self.head.clone() }
    }
}

impl Clone for Stack {
    fn clone(&self) -> (r: Self)
        ensures
            r@ == self@,
    {
        let mut branches: Vec<Branch> = Vec::new();
        let mut i: usize = 0;
        while i < self.branches.len()
            invariant
                i <= self.branches.len(),
                branches@ == self.branches@.take(i as int),
            decreases self.branches.len() - i,
        {
            branches.push(self.branches[i].clone());
            i = i + 1;
        }
        assert(branches@ == self.branches@);
        Stack {
            prefix: text::copy_opt(&self.prefix),
            trunk: self.trunk.clone(),
            branches,
            last_refreshed_at: text::copy_opt(&self.last_refreshed_at),
        }
    }
}

impl Clone for StackFile {
    fn clone(&self) -> (r: Self)
        ensures
            r@ == self@,
    {
        let mut stacks: Vec<Stack> = Vec::new();
        let mut i: usize = 0;
        while i < self.stacks.len()
            invariant
                i <= self.stacks.len(),
                stack_views(stacks@) == stack_views(self.stacks@).take(i as int),
            decreases self.stacks.len() - i,
        {
            let ghost before = stack_views(stacks@);
            stacks.push(self.stacks[i].clone());
            assert(stack_views(stacks@) =~= before.push(self.stacks@[i as int]@));
            i = i + 1;
        }
        StackFile {
            schema_version: self.schema_version,
            repository: self.repository.clone(),
            stacks,
        }
    }
}

impl BranchView {
    /// Whether the branch's pull request was merged.
    pub open spec fn is_merged(self) -> bool {
        self.pull_request matches Some(p) && p.merged
    }
}

/// The branches with a given name.
pub open spec fn named(name: Seq<char>) -> spec_fn(BranchView) -> bool {
    |b: BranchView| b.branch == name
}

/// The branches that are not merged.
pub open spec fn live() -> spec_fn(BranchView) -> bool {
    |b: BranchView| !b.is_merged()
}

/// `n` brought into `0..len`.
pub open spec fn clamped(n: int, len: int) -> int {
    if n < 0 {
        0
    } else if n >= len {
        len - 1
    } else {
        n
    }
}

impl StackView {
    /// Whether a branch of this name is in the stack.
    pub open spec fn has(self, name: Seq<char>) -> bool {
        exists|i: int| 0 <= i < self.branches.len() && (#[trigger] self.branches[i]).branch == name
    }

    /// Where the first branch of this name stands.
    pub open spec fn position(self, name: Seq<char>) -> Option<int> {
        seqs::first_where(self.branches, named(name))
    }

    /// The branches that are not merged, in stack order.
    pub open spec fn active(self) -> Seq<BranchView> {
        self.branches.filter(live())
    }

    /// The active branch `n` steps above `from`, no further than the ends.
    pub open spec fn step(self, from: Seq<char>, n: int) -> Option<BranchView> {
        match seqs::first_where(self.active(), named(from)) {
            Some(i) => Some(self.active()[clamped(i + n, self.active().len() as int)]),
            None => None,
        }
    }

    /// The lowest active branch.
    pub open spec fn bottom(self) -> Option<BranchView> {
        if self.active().len() > 0 {
            Some(self.active()[0])
        } else {
            None
        }
    }

    /// The highest active branch.
    pub open spec fn top(self) -> Option<BranchView> {
        if self.active().len() > 0 {
            Some(self.active().last())
        } else {
            None
        }
    }

    /// A branch name under the stack's prefix.
    pub open spec fn prefixed(self, name: Seq<char>) -> Seq<char> {
        prefixed_name(self.prefix, name)
    }
}

/// A branch name under a prefix.
pub open spec fn prefixed_name(prefix: Option<Seq<char>>, name: Seq<char>) -> Seq<char> {
    match prefix {
        Some(p) => p + "/"@ + name,
        None => name,
    }
}

/// The stacks that hold a branch of this name.
pub open spec fn holding(name: Seq<char>) -> spec_fn(StackView) -> bool {
    |s: StackView| s.has(name)
}

impl StackFileView {
    /// A file with no stacks.
    pub open spec fn empty(repository: Seq<char>) -> StackFileView {
        StackFileView { schema_version: SCHEMA_VERSION, repository, stacks: Seq::empty() }
    }

    /// The stacks that hold a branch of this name.
    pub open spec fn containing(self, name: Seq<char>) -> Seq<StackView> {
        self.stacks.filter(holding(name))
    }

    /// The one stack that holds a branch of this name.
    pub open spec fn current(self, name: Seq<char>) -> Result<StackView, Fault> {
        let found = self.containing(name);
        if found.len() == 0 {
            Err(Fault::NotInStack)
        } else if found.len() == 1 {
            Ok(found[0])
        } else {
            Err(Fault::Disambiguation(name))
        }
    }
}

/// The models of a list of borrowed branches.
pub open spec fn branch_ref_views(list: Seq<&Branch>) -> Seq<BranchView> {
    list.map_values(|b: &Branch| b@)
}

/// The models of a list of borrowed stacks.
pub open spec fn stack_ref_views(list: Seq<&Stack>) -> Seq<StackView> {
    list.map_values(|s: &Stack| s@)
}

impl StackFile {
    /// A file with no stacks.
    pub fn empty(repository: &str) -> (r: Self)
        ensures
            r@ == StackFileView::empty(repository@),
    {
        let stacks: Vec<Stack> = Vec::new();
        assert(stack_views(stacks@) =~= Seq::<StackView>::empty());
        StackFile { schema_version: SCHEMA_VERSION, repository: repository.to_string(), stacks }
    }

    /// Every stack that holds the given branch.
    pub fn stacks_containing<'a>(&'a self, branch: &str) -> (r: Vec<&'a Stack>)
        ensures
            stack_ref_views(r@) == self@.containing(branch@),
    {
        let ghost all = self@.stacks;
        let mut out: Vec<&'a Stack> = Vec::new();
        let mut i: usize = 0;
        assert(stack_ref_views(out@) =~= all.take(0).filter(holding(branch@))) by {
            reveal(Seq::filter);
        }
        while i < self.stacks.len()
            invariant
                i <= self.stacks.len(),
                all == stack_views(self.stacks@),
                stack_ref_views(out@) == all.take(i as int).filter(holding(branch@)),
            decreases self.stacks.len() - i,
        {
            proof {
                seqs::lemma_filter_step(all, i as int, holding(branch@));
            }
            let ghost before = stack_ref_views(out@);
            if self.stacks[i].contains(branch) {
                out.push(&self.stacks[i]);
                assert(stack_ref_views(out@) =~= before.push(all[i as int]));
            }
            i = i + 1;
        }
        assert(all.take(self.stacks.len() as int) =~= all);
        out
    }

    /// The stack that the given branch belongs to: an error where no stack
    /// holds it, and where more than one does.
    pub fn current_stack<'a>(&'a self, branch: &str) -> (r: Result<&'a Stack, StackError>)
        ensures
            match r {
                Ok(s) => self@.current(branch@) == Ok::<StackView, Fault>(s@),
                Err(e) => self@.current(branch@) == Err::<StackView, Fault>(e@),
            },
    {
        let matches = self.stacks_containing(branch);
        assert(stack_ref_views(matches@).len() == matches@.len());
        if matches.len() == 0 {
            Err(StackError::NotInStack)
        } else if matches.len() == 1 {
            assert(stack_ref_views(matches@)[0] == matches@[0]@);
            Ok(matches[0])
        } else {
            Err(StackError::Disambiguation(branch.to_string()))
        }
    }
}

/// A branch name under a prefix: `auth` under `feat` is `feat/auth`.
pub fn apply_prefix(prefix: &Option<String>, name: &str) -> (r: String)
    ensures
        r@ == prefixed_name(text::opt_view(*prefix), name@),
{
    match prefix {
        Some(p) => text::cat3(p.as_str(), "/", name),
        None => name.to_string(),
    }
}

impl Stack {
    /// Apply the stack prefix to a name: with prefix `feat`, `auth` becomes
    /// `feat/auth`. Without a prefix the name is returned unchanged.
    pub fn apply_prefix(&self, name: &str) -> (r: String)
        ensures
            r@ == self@.prefixed(name@),
    {
        apply_prefix(&self.prefix, name)
    }

    /// Whether a branch of this name is in the stack.
    pub fn contains(&self, branch: &str) -> (r: bool)
        ensures
            r == self@.has(branch@),
    {
        let found = self.position(branch);
        proof {
            seqs::lemma_first_where_is(self@.branches, named(branch@));
        }
        found.is_some()
    }

    /// Where the branch of this name stands, counted from the bottom.
    pub fn position(&self, branch: &str) -> (r: Option<usize>)
        ensures
            match r {
                Some(i) => self@.position(branch@) == Some(i as int) && i < self.branches@.len(),
                None => self@.position(branch@) is None,
            },
    {
        let ghost all = self@.branches;
        let mut i: usize = 0;
        while i < self.branches.len()
            invariant
                i <= self.branches.len(),
                all == branch_views(self.branches@),
                all == self@.branches,
                forall|j: int| 0 <= j < i ==> !named(branch@)(#[trigger] all[j]),
            decreases self.branches.len() - i,
        {
            assert(all[i as int] == self.branches@[i as int]@);
            if text::same(self.branches[i].branch.as_str(), branch) {
                proof {
                    seqs::lemma_first_where(all, named(branch@), i as int);
                }
                return Some(i);
            }
            i = i + 1;
        }
        proof {
            seqs::lemma_first_where_none(all, named(branch@));
        }
        None
    }

    /// The branches that are not merged, in stack order.
    pub fn active_branches(&self) -> (r: Vec<&Branch>)
        ensures
            branch_ref_views(r@) == self@.active(),
    {
        let ghost all = self@.branches;
        let mut out: Vec<&Branch> = Vec::new();
        let mut i: usize = 0;
        assert(branch_ref_views(out@) =~= all.take(0).filter(live())) by {
            reveal(Seq::filter);
        }
        while i < self.branches.len()
            invariant
                i <= self.branches.len(),
                all == branch_views(self.branches@),
                branch_ref_views(out@) == all.take(i as int).filter(live()),
            decreases self.branches.len() - i,
        {
            proof {
                seqs::lemma_filter_step(all, i as int, live());
            }
            let ghost before = branch_ref_views(out@);
            if !self.branches[i].is_merged() {
                out.push(&self.branches[i]);
                assert(branch_ref_views(out@) =~= before.push(all[i as int]));
            }
            i = i + 1;
        }
        assert(all.take(self.branches.len() as int) =~= all);
        out
    }

    /// Step `n` positions through the active branches from `from_branch`:
    /// positive is away from the trunk, negative towards it. Stops at the ends
    /// of the stack. `None` where `from_branch` is not an active branch.
    pub fn step_active(&self, from_branch: &str, n: isize) -> (r: Option<&Branch>)
        ensures
            match r {
                Some(b) => self@.step(from_branch@, n as int) == Some(b@),
                None => self@.step(from_branch@, n as int) is None,
            },
    {
        let active = self.active_branches();
        let ghost all = self@.active();
        let mut i: usize = 0;
        while i < active.len()
            invariant
                i <= active.len(),
                all == branch_ref_views(active@),
                all == self@.active(),
                forall|j: int| 0 <= j < i ==> !named(from_branch@)(#[trigger] all[j]),
            decreases active.len() - i,
        {
            assert(all[i as int] == active@[i as int]@);
            if text::same(active[i].branch.as_str(), from_branch) {
                proof {
                    seqs::lemma_first_where(all, named(from_branch@), i as int);
                }
                let last: usize = active.len() - 1;
                let target: usize = if n >= 0 {
                    let up: usize = n as usize;
                    if up > last - i {
                        last
                    } else {
                        i + up
                    }
                } else {
                    let below: usize = (-(n + 1)) as usize;
                    if below >= i {
                        0
                    } else {
                        i - below - 1
                    }
                };
                assert(all[target as int] == active@[target as int]@);
                return Some(active[target]);
            }
            i = i + 1;
        }
        proof {
            seqs::lemma_first_where_none(all, named(from_branch@));
        }
        None
    }

    /// The lowest active branch.
    pub fn bottom_active(&self) -> (r: Option<&Branch>)
        ensures
            match r {
                Some(b) => self@.bottom() == Some(b@),
                None => self@.bottom() is None,
            },
    {
        let active = self.active_branches();
        assert(branch_ref_views(active@).len() == active@.len());
        if active.len() > 0 {
            assert(branch_ref_views(active@)[0] == active@[0]@);
            Some(active[0])
        } else {
            None
        }
    }

    /// The highest active branch.
    pub fn top_active(&self) -> (r: Option<&Branch>)
        ensures
            match r {
                Some(b) => self@.top() == Some(b@),
                None => self@.top() is None,
            },
    {
        let active = self.active_branches();
        assert(branch_ref_views(active@).len() == active@.len());
        if active.len() > 0 {
            assert(branch_ref_views(active@).last() == active@.last()@);
            Some(active[active.len() - 1])
        } else {
            None
        }
    }
}

impl Branch {
    /// Whether the branch's pull request was merged.
    pub fn is_merged(&self) -> (r: bool)
        ensures
            r == self@.is_merged(),
    {
        match &self.pull_request {
            Some(p) => p.merged,
            None => false,
        }
    }
}

/// What `submit` does with a branch.
#[derive(Debug, PartialEq, Eq)]
pub enum SubmitAction {
    SkipMerged,
    /// The branch has no commits over its base: neither pushed nor proposed.
    SkipEmpty,
    /// The branch has a pull request: bring its record up to date.
    RefreshExisting { number: u64 },
    /// The branch needs a new pull request against `base`.
    Create { base: String },
}

/// One step of a submission, for the branch at `branch_index`.
#[derive(Debug)]
pub struct SubmitPlanItem {
    pub branch_index: usize,
    pub branch: String,
    pub action: SubmitAction,
}

#[verifier::ext_equal]
pub enum ActionView {
    SkipMerged,
    SkipEmpty,
    RefreshExisting { number: u64 },
    Create { base: Seq<char> },
}

#[verifier::ext_equal]
pub struct ItemView {
    pub branch_index: int,
    pub branch: Seq<char>,
    pub action: ActionView,
}

impl View for SubmitAction {
    type V = ActionView;

    open spec fn view(&self) -> ActionView {
        match *self {
            SubmitAction::SkipMerged => ActionView::SkipMerged,
            SubmitAction::SkipEmpty => ActionView::SkipEmpty,
            SubmitAction::RefreshExisting { number } => ActionView::RefreshExisting { number },
            SubmitAction::Create { base } => ActionView::Create { base: base@ },
        }
    }
}

impl View for SubmitPlanItem {
    type V = ItemView;

    open spec fn view(&self) -> ItemView {
        ItemView {
            branch_index: self.branch_index as int,
            branch: self.branch@,
            action: self.action@,
        }
    }
}

/// The models of a list of plan items.
pub open spec fn item_views(list: Seq<SubmitPlanItem>) -> Seq<ItemView> {
    list.map_values(|p: SubmitPlanItem| p@)
}

impl ActionView {
    /// Whether the branch is pushed and has, or gets, a pull request.
    pub open spec fn acts(self) -> bool {
        self is RefreshExisting || self is Create
    }
}

/// What is done with a branch, where that needs no look at its commits.
pub open spec fn quick_action(b: BranchView) -> Option<ActionView> {
    if b.is_merged() {
        Some(ActionView::SkipMerged)
    } else {
        match b.pull_request {
            Some(p) => Some(ActionView::RefreshExisting { number: p.number }),
            None => None,
        }
    }
}

/// The base for the next new pull request: the highest branch below that is
/// acted on, so that merged and empty branches are passed over; else the
/// trunk.
pub open spec fn chain_base(trunk: Seq<char>, items: Seq<ItemView>) -> Seq<char>
    decreases items.len(),
{
    if items.len() == 0 {
        trunk
    } else if items.last().action.acts() {
        items.last().branch
    } else {
        chain_base(trunk, items.drop_last())
    }
}

/// How far the planning of a submission has come.
#[verifier::ext_equal]
pub struct Planning {
    pub stack: StackView,
    pub items: Seq<ItemView>,
    pub failed: Option<Fault>,
}

/// The plan `items`, and what follows for the branches that need no look at
/// their commits, up to the next that does.
pub open spec fn settled(stack: StackView, items: Seq<ItemView>) -> Seq<ItemView>
    decreases stack.branches.len() - items.len(),
{
    if items.len() >= stack.branches.len() {
        items
    } else {
        let b = stack.branches[items.len() as int];
        match quick_action(b) {
            Some(action) => settled(
                stack,
                items.push(
                    ItemView { branch_index: items.len() as int, branch: b.branch, action },
                ),
            ),
            None => items,
        }
    }
}

impl Planning {
    pub open spec fn start(stack: StackView) -> Planning {
        Planning { stack, items: settled(stack, Seq::empty()), failed: None }
    }

    pub open spec fn done(self) -> bool {
        self.failed is Some || self.items.len() >= self.stack.branches.len()
    }

    /// The branch whose commits are to be looked at.
    pub open spec fn subject(self) -> BranchView {
        self.stack.branches[self.items.len() as int]
    }

    /// Whether this is the question to ask now.
    pub open spec fn asks(self, e: GitEvent) -> bool {
        &&& !self.done()
        &&& e matches GitEvent::Commits { base, branch, .. } && base == chain_base(
            self.stack.trunk.branch,
            self.items,
        ) && branch == self.subject().branch
    }

    /// What is known once it is answered.
    pub open spec fn told(self, e: GitEvent) -> Planning {
        match e {
            GitEvent::Commits { reply: Ok(commits), .. } => Planning {
                items: settled(
                    self.stack,
                    self.items.push(
                        ItemView {
                            branch_index: self.items.len() as int,
                            branch: self.subject().branch,
                            action: if commits@.len() == 0 {
                                ActionView::SkipEmpty
                            } else {
                                ActionView::Create {
                                    base: chain_base(self.stack.trunk.branch, self.items),
                                }
                            },
                        },
                    ),
                ),
                ..self
            },
            GitEvent::Commits { reply: Err(e), .. } => Planning { failed: Some(e@), ..self },
            _ => self,
        }
    }

    pub open spec fn after(self, events: Seq<GitEvent>) -> Planning
        decreases events.len(),
    {
        if events.len() == 0 {
            self
        } else {
            self.after(events.drop_last()).told(events.last())
        }
    }

    pub open spec fn follows(self, events: Seq<GitEvent>) -> bool
        decreases events.len(),
    {
        events.len() > 0 ==> self.follows(events.drop_last()) && self.after(
            events.drop_last(),
        ).asks(events.last())
    }
}

/// Whether `events` are the whole planning of a submission of `stack` that
/// returns `r`.
pub open spec fn plans(
    stack: StackView,
    events: Seq<GitEvent>,
    r: Result<Vec<SubmitPlanItem>, StackError>,
) -> bool {
    let end = Planning::start(stack).after(events);
    &&& Planning::start(stack).follows(events)
    &&& end.done()
    &&& match r {
        Ok(plan) => end.failed is None && item_views(plan@) == end.items,
        Err(e) => end.failed == Some(e@),
    }
}

/// The base for the next new pull request.
fn next_base<'a>(trunk: &'a str, plan: &'a Vec<SubmitPlanItem>) -> (r: &'a str)
    ensures
        r@ == chain_base(trunk@, item_views(plan@)),
{
    let ghost all = item_views(plan@);
    let mut i: usize = plan.len();
    assert(all.take(i as int) =~= all);
    while i > 0
        invariant
            i <= plan.len(),
            all == item_views(plan@),
            chain_base(trunk@, all) == chain_base(trunk@, all.take(i as int)),
        decreases i,
    {
        assert(all.take(i as int).drop_last() =~= all.take(i - 1));
        assert(all[i - 1] == plan@[i - 1]@);
        match &plan[i - 1].action {
            SubmitAction::RefreshExisting { .. } => {
                return plan[i - 1].branch.as_str();
            },
            SubmitAction::Create { .. } => {
                return plan[i - 1].branch.as_str();
            },
            _ => {},
        }
        i = i - 1;
    }
    trunk
}

impl Stack {
    /// Plan one action per branch for `stack submit`, in stack order. Whether
    /// a branch is empty over its base is asked of git, and only where the
    /// branch may need a new pull request.
    pub fn submit_plan<G: GitOps>(&self, git: &mut G) -> (r: Result<
        Vec<SubmitPlanItem>,
        StackError,
    >)
        ensures
            exists|events: Seq<GitEvent>|
                #[trigger] plans(self@, events, r) && final(git).history() == old(git).history()
                    + events,
    {
        let ghost start = Planning::start(self@);
        let ghost mut events: Seq<GitEvent> = Seq::empty();
        let mut plan: Vec<SubmitPlanItem> = Vec::new();
        let mut i: usize = 0;
        assert(git.history() =~= old(git).history() + events);
        assert(item_views(plan@) =~= Seq::<ItemView>::empty());
        while i < self.branches.len()
            invariant
                i <= self.branches.len(),
                plan@.len() == i,
                start == Planning::start(self@),
                git.history() == old(git).history() + events,
                start.follows(events),
                start.after(events) == (Planning {
                    stack: self@,
                    items: settled(self@, item_views(plan@)),
                    failed: None,
                }),
            decreases self.branches.len() - i,
        {
            let ghost items = item_views(plan@);
            let b = &self.branches[i];
            assert(self@.branches[i as int] == b@);
            let action = if b.is_merged() {
                SubmitAction::SkipMerged
            } else if let Some(pr) = &b.pull_request {
                SubmitAction::RefreshExisting { number: pr.number }
            } else {
                let base = next_base(self.trunk.branch.as_str(), &plan).to_string();
                let reply = git.commits_between(base.as_str(), b.branch.as_str());
                let ghost e = GitEvent::Commits { base: base@, branch: b.branch@, reply };
                proof {
                    assert(events.push(e).drop_last() =~= events);
                    assert(git.history() =~= old(git).history() + events.push(e));
                    events = events.push(e);
                }
                match reply {
                    Err(err) => {
                        assert(plans(self@, events, Err(err)));
                        return Err(err);
                    },
                    Ok(commits) => if commits.len() == 0 {
                        SubmitAction::SkipEmpty
                    } else {
                        SubmitAction::Create { base }
                    },
                }
            };
            let item = SubmitPlanItem { branch_index: i, branch: b.branch.clone(), action };
            let ghost model = item@;
            plan.push(item);
            assert(item_views(plan@) =~= items.push(model));
            i = i + 1;
        }
        assert(plans(self@, events, Ok(plan)));
        Ok(plan)
    }
}

/// A worktree that git knows, with the branch it has checked out and whether
/// its directory is still there.
#[derive(Debug)]
pub struct Worktree {
    pub path: String,
    pub branch: String,
    pub present: bool,
}

/// What is known of a stack's worktree. `Missing` means that git still tracks
/// the path but the directory is gone.
#[derive(Debug, PartialEq, Eq)]
pub enum WorktreeStatus {
    Live(String),
    Missing(String),
    Absent,
}

#[verifier::ext_equal]
pub struct WorktreeView {
    pub path: Seq<char>,
    pub branch: Seq<char>,
    pub present: bool,
}

#[verifier::ext_equal]
pub enum StatusView {
    Live(Seq<char>),
    Missing(Seq<char>),
    Absent,
}

impl View for Worktree {
    type V = WorktreeView;

    open spec fn view(&self) -> WorktreeView {
        WorktreeView { path: self.path@, branch: self.branch@, present: self.present }
    }
}

impl View for WorktreeStatus {
    type V = StatusView;

    open spec fn view(&self) -> StatusView {
        match *self {
            WorktreeStatus::Live(p) => StatusView::Live(p@),
            WorktreeStatus::Missing(p) => StatusView::Missing(p@),
            WorktreeStatus::Absent => StatusView::Absent,
        }
    }
}

/// The models of a list of worktrees.
pub open spec fn worktree_views(list: Seq<Worktree>) -> Seq<WorktreeView> {
    list.map_values(|w: Worktree| w@)
}

/// The worktrees of a stack that are there and that a directory lies in.
pub open spec fn owning(stack: StackView, cwd: Seq<char>) -> spec_fn(WorktreeView) -> bool {
    |w: WorktreeView| paths::under(cwd, w.path) && w.present && stack.has(w.branch)
}

/// The worktrees that have a branch checked out.
pub open spec fn showing(branch: Seq<char>) -> spec_fn(WorktreeView) -> bool {
    |w: WorktreeView| w.branch == branch
}

/// The worktree of a branch: the first that has it checked out.
pub open spec fn worktree_of(worktrees: Seq<WorktreeView>, branch: Seq<char>) -> Option<
    WorktreeView,
> {
    match seqs::first_where(worktrees, showing(branch)) {
        Some(k) => Some(worktrees[k]),
        None => None,
    }
}

/// The branches whose worktree is there, or whose worktree is gone.
pub open spec fn with_worktree(worktrees: Seq<WorktreeView>, present: bool) -> spec_fn(
    BranchView,
) -> bool {
    |b: BranchView| worktree_of(worktrees, b.branch) matches Some(w) && w.present == present
}

impl StackView {
    /// The worktree of the stack: the first that is there, shows a branch of
    /// the stack and has `cwd` in it; else that of the lowest branch with one
    /// that is there; else that of the lowest branch with one at all.
    pub open spec fn worktree(self, worktrees: Seq<WorktreeView>, cwd: Seq<char>) -> StatusView {
        let by_branch = match seqs::first_where(self.branches, with_worktree(worktrees, true)) {
            Some(i) => StatusView::Live(
                worktree_of(worktrees, self.branches[i].branch)->0.path,
            ),
            None => match seqs::first_where(self.branches, with_worktree(worktrees, false)) {
                Some(i) => StatusView::Missing(
                    worktree_of(worktrees, self.branches[i].branch)->0.path,
                ),
                None => StatusView::Absent,
            },
        };
        match seqs::first_where(worktrees, owning(self, cwd)) {
            Some(k) => StatusView::Live(worktrees[k].path),
            None => by_branch,
        }
    }
}

fn find_owner(stack: &Stack, worktrees: &Vec<Worktree>, cwd: &str) -> (r: Option<usize>)
    ensures
        match r {
            Some(k) => seqs::first_where(worktree_views(worktrees@), owning(stack@, cwd@)) == Some(
                k as int,
            ) && k < worktrees@.len(),
            None => seqs::first_where(worktree_views(worktrees@), owning(stack@, cwd@)) is None,
        },
{
    let ghost all = worktree_views(worktrees@);
    let ghost p = owning(stack@, cwd@);
    let mut i: usize = 0;
    while i < worktrees.len()
        invariant
            i <= worktrees.len(),
            all == worktree_views(worktrees@),
            p == owning(stack@, cwd@),
            forall|j: int| 0 <= j < i ==> !p(#[trigger] all[j]),
        decreases worktrees.len() - i,
    {
        let w = &worktrees[i];
        assert(all[i as int] == w@);
        if w.present && stack.contains(w.branch.as_str()) && paths::starts_with(
            cwd,
            w.path.as_str(),
        ) {
            proof {
                seqs::lemma_first_where(all, p, i as int);
            }
            return Some(i);
        }
        i = i + 1;
    }
    proof {
        seqs::lemma_first_where_none(all, p);
    }
    None
}

/// Where the worktree of a branch stands in a list.
pub fn find_worktree(worktrees: &Vec<Worktree>, branch: &str) -> (r: Option<usize>)
    ensures
        match r {
            Some(k) => k < worktrees@.len() && worktree_of(worktree_views(worktrees@), branch@)
                == Some(worktrees@[k as int]@),
            None => worktree_of(worktree_views(worktrees@), branch@) is None,
        },
{
    let ghost all = worktree_views(worktrees@);
    let mut i: usize = 0;
    while i < worktrees.len()
        invariant
            i <= worktrees.len(),
            all == worktree_views(worktrees@),
            forall|j: int| 0 <= j < i ==> !showing(branch@)(#[trigger] all[j]),
        decreases worktrees.len() - i,
    {
        assert(all[i as int] == worktrees@[i as int]@);
        if text::same(worktrees[i].branch.as_str(), branch) {
            proof {
                seqs::lemma_first_where(all, showing(branch@), i as int);
            }
            return Some(i);
        }
        i = i + 1;
    }
    proof {
        seqs::lemma_first_where_none(all, showing(branch@));
    }
    None
}

impl Stack {
    /// The worktree of this stack, out of those that git reports.
    pub fn resolve_worktree(&self, worktrees: &Vec<Worktree>, cwd: &str) -> (r: WorktreeStatus)
        ensures
            r@ == self@.worktree(worktree_views(worktrees@), cwd@),
    {
        let ghost list = worktree_views(worktrees@);
        let ghost all = self@.branches;
        if let Some(k) = find_owner(self, worktrees, cwd) {
            assert(list[k as int] == worktrees@[k as int]@);
            return WorktreeStatus::Live(worktrees[k].path.clone());
        }
        let mut missing: Option<usize> = None;
        let mut i: usize = 0;
        while i < self.branches.len()
            invariant
                i <= self.branches.len(),
                list == worktree_views(worktrees@),
                all == branch_views(self.branches@),
                all == self@.branches,
                self@.worktree(list, cwd@) == (match seqs::first_where(
                    all,
                    with_worktree(list, true),
                ) {
                    Some(i) => StatusView::Live(worktree_of(list, all[i].branch)->0.path),
                    None => match seqs::first_where(all, with_worktree(list, false)) {
                        Some(i) => StatusView::Missing(worktree_of(list, all[i].branch)->0.path),
                        None => StatusView::Absent,
                    },
                }),
                forall|j: int| 0 <= j < i ==> !with_worktree(list, true)(#[trigger] all[j]),
                match missing {
                    Some(k) => k < worktrees@.len() && exists|m: int|
                        0 <= m < i && with_worktree(list, false)(#[trigger] all[m]) && (forall|
                            j: int,
                        |
                            0 <= j < m ==> !with_worktree(list, false)(#[trigger] all[j]))
                            && worktree_of(list, all[m].branch) == Some(worktrees@[k as int]@),
                    None => forall|j: int|
                        0 <= j < i ==> !with_worktree(list, false)(#[trigger] all[j]),
                },
            decreases self.branches.len() - i,
        {
            assert(all[i as int] == self.branches@[i as int]@);
            if let Some(k) = find_worktree(worktrees, self.branches[i].branch.as_str()) {
                if worktrees[k].present {
                    proof {
                        seqs::lemma_first_where(all, with_worktree(list, true), i as int);
                    }
                    return WorktreeStatus::Live(worktrees[k].path.clone());
                } else if missing.is_none() {
                    assert(with_worktree(list, false)(all[i as int]));
                    missing = Some(k);
                }
            }
            i = i + 1;
        }
        proof {
            seqs::lemma_first_where_none(all, with_worktree(list, true));
        }
        match missing {
            Some(k) => {
                proof {
                    let m = choose|m: int|
                        0 <= m < i && with_worktree(list, false)(#[trigger] all[m]) && (forall|
                            j: int,
                        |
                            0 <= j < m ==> !with_worktree(list, false)(#[trigger] all[j]))
                            && worktree_of(list, all[m].branch) == Some(worktrees@[k as int]@);
                    seqs::lemma_first_where(all, with_worktree(list, false), m);
                }
                WorktreeStatus::Missing(worktrees[k].path.clone())
            },
            None => {
                proof {
                    seqs::lemma_first_where_none(all, with_worktree(list, false));
                }
                WorktreeStatus::Absent
            },
        }
    }
}

/// Whether the item at `i` is right for its branch: merged branches are
/// skipped, those with a pull request refreshed, and of the others each is
/// either empty or gets a pull request against the highest branch below that
/// is acted on.
pub open spec fn item_fits(stack: StackView, items: Seq<ItemView>, i: int) -> bool {
    let b = stack.branches[i];
    &&& items[i].branch_index == i
    &&& items[i].branch == b.branch
    &&& match quick_action(b) {
        Some(action) => items[i].action == action,
        None => items[i].action == ActionView::SkipEmpty || items[i].action == (
        ActionView::Create { base: chain_base(stack.trunk.branch, items.take(i)) }),
    }
}

/// Whether every item so far is right for its branch.
pub open spec fn plan_fits(stack: StackView, items: Seq<ItemView>) -> bool {
    &&& items.len() <= stack.branches.len()
    &&& forall|i: int| 0 <= i < items.len() ==> #[trigger] item_fits(stack, items, i)
}

proof fn lemma_plan_push(stack: StackView, items: Seq<ItemView>, item: ItemView)
    requires
        plan_fits(stack, items),
        items.len() < stack.branches.len(),
        item_fits(stack, items.push(item), items.len() as int),
    ensures
        plan_fits(stack, items.push(item)),
{
    let more = items.push(item);
    assert forall|i: int| 0 <= i < more.len() implies #[trigger] item_fits(stack, more, i) by {
        if i < items.len() {
            assert(item_fits(stack, items, i));
            assert(more.take(i) =~= items.take(i));
        }
    }
}

proof fn lemma_settled_fits(stack: StackView, items: Seq<ItemView>)
    requires
        plan_fits(stack, items),
    ensures
        plan_fits(stack, settled(stack, items)),
    decreases stack.branches.len() - items.len(),
{
    if items.len() < stack.branches.len() {
        let b = stack.branches[items.len() as int];
        if let Some(action) = quick_action(b) {
            let item = ItemView {
                branch_index: items.len() as int,
                branch: b.branch,
                action,
            };
            lemma_plan_push(stack, items, item);
            lemma_settled_fits(stack, items.push(item));
        }
    }
}

proof fn lemma_planning_fits(stack: StackView, events: Seq<GitEvent>)
    requires
        Planning::start(stack).follows(events),
    ensures
        plan_fits(stack, Planning::start(stack).after(events).items),
        Planning::start(stack).after(events).stack == stack,
        ({
            let p = Planning::start(stack).after(events);
            p.items.len() < stack.branches.len() ==> quick_action(
                stack.branches[p.items.len() as int],
            ) is None
        }),
    decreases events.len(),
{
    if events.len() == 0 {
        lemma_settled_fits(stack, Seq::empty());
        lemma_settled_stops(stack, Seq::empty());
    } else {
        let before = Planning::start(stack).after(events.drop_last());
        lemma_planning_fits(stack, events.drop_last());
        if let GitEvent::Commits { reply: Ok(commits), .. } = events.last() {
            let item = ItemView {
                branch_index: before.items.len() as int,
                branch: before.subject().branch,
                action: if commits@.len() == 0 {
                    ActionView::SkipEmpty
                } else {
                    ActionView::Create { base: chain_base(stack.trunk.branch, before.items) }
                },
            };
            let more = before.items.push(item);
            assert(more.take(before.items.len() as int) =~= before.items);
            lemma_plan_push(stack, before.items, item);
            lemma_settled_fits(stack, more);
            lemma_settled_stops(stack, more);
        }
    }
}

proof fn lemma_settled_stops(stack: StackView, items: Seq<ItemView>)
    ensures
        settled(stack, items).len() < stack.branches.len() ==> quick_action(
            stack.branches[settled(stack, items).len() as int],
        ) is None,
    decreases stack.branches.len() - items.len(),
{
    if items.len() < stack.branches.len() {
        let b = stack.branches[items.len() as int];
        if let Some(action) = quick_action(b) {
            lemma_settled_stops(
                stack,
                items.push(
                    ItemView { branch_index: items.len() as int, branch: b.branch, action },
                ),
            );
        }
    }
}

/// A finished plan has one item for each branch, in stack order, and each is
/// right for its branch.
pub proof fn law_plan_covers_stack(
    stack: StackView,
    events: Seq<GitEvent>,
    r: Result<Vec<SubmitPlanItem>, StackError>,
)
    requires
        plans(stack, events, r),
        r is Ok,
    ensures
        r->Ok_0@.len() == stack.branches.len(),
        forall|i: int|
            0 <= i < stack.branches.len() ==> #[trigger] item_fits(
                stack,
                item_views(r->Ok_0@),
                i,
            ),
{
    lemma_planning_fits(stack, events);
}

/// The base of a new pull request is the trunk, or a branch below that is
/// itself acted on, with no other such branch in between. So it is never a
/// merged branch nor an empty one.
pub proof fn law_base_is_acted_on(trunk: Seq<char>, items: Seq<ItemView>)
    ensures
        ({
            ||| chain_base(trunk, items) == trunk && forall|j: int|
                0 <= j < items.len() ==> !(#[trigger] items[j]).action.acts()
            ||| exists|k: int|
                0 <= k < items.len() && (#[trigger] items[k]).action.acts() && chain_base(
                    trunk,
                    items,
                ) == items[k].branch && forall|j: int|
                    k < j < items.len() ==> !(#[trigger] items[j]).action.acts()
        }),
    decreases items.len(),
{
    if items.len() > 0 {
        if items.last().action.acts() {
            assert(items[items.len() - 1].action.acts());
        } else {
            let rest = items.drop_last();
            law_base_is_acted_on(trunk, rest);
            assert forall|j: int| 0 <= j < rest.len() implies #[trigger] items[j] == rest[j] by {}
            if exists|k: int|
                0 <= k < rest.len() && (#[trigger] rest[k]).action.acts() && chain_base(
                    trunk,
                    rest,
                ) == rest[k].branch && forall|j: int|
                    k < j < rest.len() ==> !(#[trigger] rest[j]).action.acts() {
                let k = choose|k: int|
                    0 <= k < rest.len() && (#[trigger] rest[k]).action.acts() && chain_base(
                        trunk,
                        rest,
                    ) == rest[k].branch && forall|j: int|
                        k < j < rest.len() ==> !(#[trigger] rest[j]).action.acts();
                assert(items[k].action.acts());
            }
        }
    }
}

/// Moving no step stays on an active branch, and moving up then down again by
/// as much comes back, where the stack does not end in between and no active
/// name occurs twice.
pub proof fn law_steps_undo(stack: StackView, i: int, n: int)
    requires
        0 <= i < stack.active().len(),
        0 <= i + n < stack.active().len(),
        forall|a: int, b: int|
            0 <= a < b < stack.active().len() ==> (#[trigger] stack.active()[a]).branch != (
            #[trigger] stack.active()[b]).branch,
    ensures
        stack.step(stack.active()[i].branch, 0) == Some(stack.active()[i]),
        stack.step(stack.active()[i].branch, n) == Some(stack.active()[i + n]),
        stack.step(stack.active()[i + n].branch, -n) == Some(stack.active()[i]),
{
    let all = stack.active();
    assert forall|k: int| 0 <= k < all.len() implies seqs::first_where(
        all,
        named((#[trigger] all[k]).branch),
    ) == Some(k) by {
        assert forall|j: int| 0 <= j < k implies !named(all[k].branch)(#[trigger] all[j]) by {
            assert(all[j].branch != all[k].branch);
        }
        seqs::lemma_first_where(all, named(all[k].branch), k);
    }
    assert(all[i + n] == all[i + n]);
}

/// Navigation never leaves the active branches, and from any of them the top
/// and the bottom are the furthest it goes.
pub proof fn law_steps_stay_active(stack: StackView, from: Seq<char>, n: int)
    ensures
        stack.step(from, n) matches Some(b) ==> !b.is_merged() && stack.active().contains(b),
        stack.step(from, n) is Some ==> stack.top() is Some && stack.bottom() is Some,
        stack.step(from, n) is Some && n >= stack.active().len() ==> stack.step(from, n)
            == stack.top(),
        stack.step(from, n) is Some && -n >= stack.active().len() ==> stack.step(from, n)
            == stack.bottom(),
{
    let all = stack.active();
    seqs::lemma_filter_all(stack.branches, live());
    seqs::lemma_first_where_is(all, named(from));
    if let Some(i) = seqs::first_where(all, named(from)) {
        let k = clamped(i + n, all.len() as int);
        assert(live()(all[k]));
    }
}

/// No merged branch is active, and every other branch is.
pub proof fn law_active_is_unmerged(stack: StackView)
    ensures
        forall|i: int|
            0 <= i < stack.active().len() ==> !(#[trigger] stack.active()[i]).is_merged(),
        forall|i: int|
            0 <= i < stack.branches.len() && !(#[trigger] stack.branches[i]).is_merged()
                ==> stack.active().contains(stack.branches[i]),
{
    seqs::lemma_filter_all(stack.branches, live());
    assert forall|i: int| 0 <= i < stack.active().len() implies !(
    #[trigger] stack.active()[i]).is_merged() by {
        assert(live()(stack.active()[i]));
    }
    assert forall|i: int|
        0 <= i < stack.branches.len() && !(
        #[trigger] stack.branches[i]).is_merged() implies stack.active().contains(
        stack.branches[i],
    ) by {
        assert(live()(stack.branches[i]));
    }
}

/// Whether git was asked for the commits of a branch over a base and gave some,
/// or none.
pub open spec fn asked_commits(
    events: Seq<GitEvent>,
    base: Seq<char>,
    branch: Seq<char>,
    some: bool,
) -> bool {
    exists|k: int|
        0 <= k < events.len() && (
        #[trigger] events[k] matches GitEvent::Commits { base: b, branch: n, reply: Ok(commits) }
            && b == base && n == branch && (commits@.len() > 0) == some)
}

/// Whether a plan item says what git and the record say of the branch: merged
/// ones are passed over, one with a pull request keeps it, and of the others one
/// is passed over exactly where git gave no commits over the base that it would
/// get, which is the trunk or a branch below.
pub open spec fn item_told(stack: StackView, item: ItemView, events: Seq<GitEvent>) -> bool {
    let i = item.branch_index;
    let b = stack.branches[i];
    &&& 0 <= i < stack.branches.len()
    &&& item.branch == b.branch
    &&& match b.pull_request {
        Some(p) => if p.merged {
            item.action is SkipMerged
        } else {
            item.action == (ActionView::RefreshExisting { number: p.number })
        },
        None => match item.action {
            ActionView::Create { base } => asked_commits(events, base, b.branch, true) && (base
                == stack.trunk.branch || exists|j: int|
                0 <= j < i && base == (#[trigger] stack.branches[j]).branch),
            ActionView::SkipEmpty => exists|base: Seq<char>|
                #[trigger] asked_commits(events, base, b.branch, false),
            _ => false,
        },
    }
}

/// What was asked stays asked.
pub proof fn lemma_asked_more(
    events: Seq<GitEvent>,
    e: GitEvent,
    base: Seq<char>,
    branch: Seq<char>,
    some: bool,
)
    requires
        asked_commits(events, base, branch, some),
    ensures
        asked_commits(events.push(e), base, branch, some),
{
    let k = choose|k: int|
        0 <= k < events.len() && (
        #[trigger] events[k] matches GitEvent::Commits { base: b, branch: n, reply: Ok(commits) }
            && b == base && n == branch && (commits@.len() > 0) == some);
    assert(events.push(e)[k] == events[k]);
}

proof fn lemma_told_more(stack: StackView, item: ItemView, events: Seq<GitEvent>, e: GitEvent)
    requires
        item_told(stack, item, events),
    ensures
        item_told(stack, item, events.push(e)),
{
    let b = stack.branches[item.branch_index];
    if b.pull_request is None {
        match item.action {
            ActionView::Create { base } => {
                lemma_asked_more(events, e, base, b.branch, true);
            },
            ActionView::SkipEmpty => {
                let base = choose|base: Seq<char>|
                    #[trigger] asked_commits(events, base, b.branch, false);
                lemma_asked_more(events, e, base, b.branch, false);
            },
            _ => {},
        }
    }
}

proof fn lemma_settled_told(stack: StackView, items: Seq<ItemView>, events: Seq<GitEvent>)
    requires
        items.len() <= stack.branches.len(),
        forall|i: int|
            0 <= i < items.len() ==> item_told(stack, #[trigger] items[i], events)
                && items[i].branch_index == i,
    ensures
        settled(stack, items).len() <= stack.branches.len(),
        settled(stack, items).len() < stack.branches.len() ==> stack.branches[settled(
            stack,
            items,
        ).len() as int].pull_request is None,
        forall|i: int|
            0 <= i < settled(stack, items).len() ==> item_told(
                stack,
                #[trigger] settled(stack, items)[i],
                events,
            ) && settled(stack, items)[i].branch_index == i,
    decreases stack.branches.len() - items.len(),
{
    if items.len() < stack.branches.len() {
        let b = stack.branches[items.len() as int];
        if let Some(action) = quick_action(b) {
            let item = ItemView { branch_index: items.len() as int, branch: b.branch, action };
            assert forall|i: int| 0 <= i < items.push(item).len() implies item_told(
                stack,
                #[trigger] items.push(item)[i],
                events,
            ) && items.push(item)[i].branch_index == i by {
                if i < items.len() {
                    assert(items.push(item)[i] == items[i]);
                }
            }
            lemma_settled_told(stack, items.push(item), events);
        }
    }
}

proof fn lemma_chain_below(trunk: Seq<char>, items: Seq<ItemView>)
    ensures
        chain_base(trunk, items) == trunk || exists|j: int|
            0 <= j < items.len() && chain_base(trunk, items) == (#[trigger] items[j]).branch,
    decreases items.len(),
{
    if items.len() > 0 {
        if items.last().action.acts() {
            assert(items[items.len() - 1].branch == chain_base(trunk, items));
        } else {
            let rest = items.drop_last();
            lemma_chain_below(trunk, rest);
            if chain_base(trunk, rest) != trunk {
                let j = choose|j: int|
                    0 <= j < rest.len() && chain_base(trunk, rest) == (#[trigger] rest[j]).branch;
                assert(items[j] == rest[j]);
            }
        }
    }
}

pub proof fn lemma_planning_told(stack: StackView, events: Seq<GitEvent>)
    requires
        Planning::start(stack).follows(events),
    ensures
        ({
            let p = Planning::start(stack).after(events);
            &&& p.stack == stack
            &&& p.items.len() <= stack.branches.len()
            &&& p.items.len() < stack.branches.len()
                ==> stack.branches[p.items.len() as int].pull_request is None
            &&& forall|i: int|
                0 <= i < p.items.len() ==> item_told(stack, #[trigger] p.items[i], events)
                    && p.items[i].branch_index == i
            &&& p.failed matches Some(f) ==> events.len() > 0 && (
            events.last() matches GitEvent::Commits { reply: Err(e), .. } && e@ == f)
        }),
    decreases events.len(),
{
    if events.len() == 0 {
        lemma_settled_told(stack, Seq::empty(), events);
    } else {
        let rest = events.drop_last();
        lemma_planning_told(stack, rest);
        let mid = Planning::start(stack).after(rest);
        let e = events.last();
        assert(rest.push(e) =~= events);
        assert forall|i: int| 0 <= i < mid.items.len() implies item_told(
            stack,
            #[trigger] mid.items[i],
            events,
        ) && mid.items[i].branch_index == i by {
            lemma_told_more(stack, mid.items[i], rest, e);
        }
        if let GitEvent::Commits { base, branch, reply: Ok(commits) } = e {
            assert(events[events.len() - 1] == e);
            let b = mid.subject();
            let item = ItemView {
                branch_index: mid.items.len() as int,
                branch: b.branch,
                action: if commits@.len() == 0 {
                    ActionView::SkipEmpty
                } else {
                    ActionView::Create { base: chain_base(stack.trunk.branch, mid.items) }
                },
            };
            assert(asked_commits(events, base, branch, commits@.len() > 0));
            lemma_chain_below(stack.trunk.branch, mid.items);
            if base != stack.trunk.branch {
                let j = choose|j: int|
                    0 <= j < mid.items.len() && base == (#[trigger] mid.items[j]).branch;
                assert(item_told(stack, mid.items[j], events));
                assert(base == stack.branches[j].branch);
            }
            assert(item_told(stack, item, events));
            let more = mid.items.push(item);
            assert forall|i: int| 0 <= i < more.len() implies item_told(
                stack,
                #[trigger] more[i],
                events,
            ) && more[i].branch_index == i by {
                if i < mid.items.len() {
                    assert(more[i] == mid.items[i]);
                }
            }
            lemma_settled_told(stack, more, events);
        }
    }
}

/// A plan has one item for each branch, in stack order, each as git and the
/// record have it; where git fails there is no plan, and the failure is git's.
pub proof fn law_plan_is_told(
    stack: StackView,
    events: Seq<GitEvent>,
    r: Result<Vec<SubmitPlanItem>, StackError>,
)
    requires
        plans(stack, events, r),
    ensures
        r matches Ok(plan) ==> plan@.len() == stack.branches.len() && forall|i: int|
            0 <= i < plan@.len() ==> (#[trigger] plan@[i]).branch_index == i && item_told(
                stack,
                plan@[i]@,
                events,
            ),
        r matches Err(f) ==> events.len() > 0 && (
        events.last() matches GitEvent::Commits { reply: Err(e), .. } && e@ == f@),
{
    lemma_planning_told(stack, events);
    if let Ok(plan) = r {
        let items = item_views(plan@);
        assert(items.len() == plan@.len());
        assert forall|i: int| 0 <= i < plan@.len() implies (
        #[trigger] plan@[i]).branch_index == i && item_told(stack, plan@[i]@, events) by {
            assert(items[i] == plan@[i]@);
        }
    }
}

/// Whether the branch at `i` is not merged.
pub open spec fn open_at(stack: StackView, i: int) -> bool {
    0 <= i < stack.branches.len() && !(stack.branches[i].pull_request matches Some(p) && p.merged)
}

/// The top is the highest branch that is not merged, the bottom the lowest, and
/// there is none exactly where every branch is merged.
pub proof fn law_ends_are_outermost(stack: StackView)
    ensures
        match stack.top() {
            Some(b) => exists|i: int|
                #[trigger] open_at(stack, i) && stack.branches[i] == b && forall|j: int|
                    i < j ==> !#[trigger] open_at(stack, j),
            None => forall|j: int| !#[trigger] open_at(stack, j),
        },
        match stack.bottom() {
            Some(b) => exists|i: int|
                #[trigger] open_at(stack, i) && stack.branches[i] == b && forall|j: int|
                    j < i ==> !#[trigger] open_at(stack, j),
            None => forall|j: int| !#[trigger] open_at(stack, j),
        },
{
    let places = seqs::lemma_filter_places(stack.branches, live());
    assert forall|j: int| #[trigger] open_at(stack, j) implies places.contains(j) by {
        assert(live()(stack.branches[j]));
    }
    if places.len() > 0 {
        let low = places[0];
        let high = places[places.len() - 1];
        assert(live()(stack.branches[low]) && live()(stack.branches[high]));
        assert(open_at(stack, low) && open_at(stack, high));
        assert forall|j: int| high < j implies !#[trigger] open_at(stack, j) by {
            if open_at(stack, j) {
                let k = choose|k: int| 0 <= k < places.len() && places[k] == j;
                assert(places[k] <= high);
            }
        }
        assert forall|j: int| j < low implies !#[trigger] open_at(stack, j) by {
            if open_at(stack, j) {
                let k = choose|k: int| 0 <= k < places.len() && places[k] == j;
                assert(low <= places[k]);
            }
        }
    }
}

/// The place of the first branch of this name that is not merged.
pub open spec fn stands_at(stack: StackView, name: Seq<char>, i: int) -> bool {
    &&& open_at(stack, i)
    &&& stack.branches[i].branch == name
    &&& forall|j: int| j < i && #[trigger] open_at(stack, j) ==> stack.branches[j].branch != name
}

/// A step leads from a branch that is not merged to another: up for a positive
/// count, down for a negative one, and a single step to the next. It stays in
/// place only where there is none further. It leads nowhere exactly where no such
/// branch has the name.
#[verifier::rlimit(40)]
pub proof fn law_step_goes_by_place(stack: StackView, from: Seq<char>, n: int)
    ensures
        match stack.step(from, n) {
            Some(b) => exists|i: int, k: int|
                #[trigger] stands_at(stack, from, i) && #[trigger] open_at(stack, k)
                    && stack.branches[k] == b && (n >= 0 ==> i <= k) && (n <= 0 ==> k <= i) && (n
                    > 0 && k == i ==> forall|j: int| i < j ==> !#[trigger] open_at(stack, j)) && (n
                    < 0 && k == i ==> forall|j: int| j < i ==> !#[trigger] open_at(stack, j)) && (n
                    == 1 ==> forall|j: int| i < j < k ==> !#[trigger] open_at(stack, j)) && (n
                    == -1 ==> forall|j: int| k < j < i ==> !#[trigger] open_at(stack, j)),
            None => forall|i: int|
                #[trigger] open_at(stack, i) ==> stack.branches[i].branch != from,
        },
{
    let places = seqs::lemma_filter_places(stack.branches, live());
    let all = stack.active();
    seqs::lemma_first_where_is(all, named(from));
    assert forall|j: int| #[trigger] open_at(stack, j) implies places.contains(j) by {
        assert(live()(stack.branches[j]));
    }
    match seqs::first_where(all, named(from)) {
        Some(x) => {
            let y = clamped(x + n, all.len() as int);
            let i = places[x];
            let k = places[y];
            assert(live()(stack.branches[i]) && live()(stack.branches[k]));
            assert(open_at(stack, k));
            assert forall|j: int| j < i && #[trigger] open_at(stack, j) implies
                stack.branches[j].branch != from by {
                let m = choose|m: int| 0 <= m < places.len() && places[m] == j;
                assert(m < x);
                assert(!named(from)(all[m]));
            }
            assert(stands_at(stack, from, i));
            assert(y > x ==> places[x] < places[y]);
            assert(y < x ==> places[y] < places[x]);
            assert forall|j: int| #[trigger] open_at(stack, j) && n == 1 implies !(i < j < k) by {
                let m = choose|m: int| 0 <= m < places.len() && places[m] == j;
                if i < j < k {
                    assert(x < m < y);
                }
            }
            assert forall|j: int| #[trigger] open_at(stack, j) && n == -1 implies !(k < j < i) by {
                let m = choose|m: int| 0 <= m < places.len() && places[m] == j;
                if k < j < i {
                    assert(y < m < x);
                }
            }
            if n > 0 && k == i {
                assert(x == all.len() - 1);
                assert forall|j: int| i < j implies !#[trigger] open_at(stack, j) by {
                    if open_at(stack, j) {
                        let m = choose|m: int| 0 <= m < places.len() && places[m] == j;
                        assert(places[m] <= i);
                    }
                }
            }
            if n < 0 && k == i {
                assert(x == 0);
                assert forall|j: int| j < i implies !#[trigger] open_at(stack, j) by {
                    if open_at(stack, j) {
                        let m = choose|m: int| 0 <= m < places.len() && places[m] == j;
                        assert(i <= places[m]);
                    }
                }
            }
        },
        None => {
            assert forall|i: int| #[trigger] open_at(stack, i) implies stack.branches[i].branch
                != from by {
                let m = choose|m: int| 0 <= m < places.len() && places[m] == i;
                assert(!named(from)(all[m]));
            }
        },
    }
}

/// The stack that a branch belongs to is the only one that holds it. It is an
/// error where none does, and another where two do.
pub proof fn law_current_is_the_only(file: StackFileView, name: Seq<char>)
    ensures
        match file.current(name) {
            Ok(s) => exists|k: int|
                0 <= k < file.stacks.len() && (#[trigger] file.stacks[k]) == s && s.has(name)
                    && forall|j: int|
                    0 <= j < file.stacks.len() && j != k ==> !(#[trigger] file.stacks[j]).has(name),
            Err(Fault::Disambiguation(n)) => n == name && exists|j: int, k: int|
                0 <= j < k < file.stacks.len() && (#[trigger] file.stacks[j]).has(name) && (
                #[trigger] file.stacks[k]).has(name),
            Err(f) => f is NotInStack && forall|j: int|
                0 <= j < file.stacks.len() ==> !(#[trigger] file.stacks[j]).has(name),
        },
{
    let p = holding(name);
    let places = seqs::lemma_filter_places(file.stacks, p);
    assert forall|j: int| 0 <= j < file.stacks.len() && (#[trigger] file.stacks[j]).has(
        name,
    ) implies places.contains(j) by {
        assert(p(file.stacks[j]));
    }
    if places.len() == 1 {
        let k = places[0];
        assert forall|j: int| 0 <= j < file.stacks.len() && j != k implies !(
        #[trigger] file.stacks[j]).has(name) by {
            if file.stacks[j].has(name) {
                let m = choose|m: int| 0 <= m < places.len() && places[m] == j;
            }
        }
        assert(file.stacks[k].has(name));
    } else if places.len() > 1 {
        assert(places[0] < places[1]);
        assert(file.stacks[places[0]].has(name) && file.stacks[places[1]].has(name));
    }
}

/// A pull request that is to be opened goes into the next branch below that is
/// pushed, which is one that has a pull request or gets one, or else into the
/// trunk.
#[verifier::rlimit(40)]
pub proof fn law_new_goes_into_next_below(
    stack: StackView,
    events: Seq<GitEvent>,
    plan: Vec<SubmitPlanItem>,
    i: int,
)
    requires
        plans(stack, events, Ok(plan)),
        0 <= i < stack.branches.len(),
    ensures
        ({
            let items = item_views(plan@);
            items[i].action matches ActionView::Create { base } ==> {
                ||| base == stack.trunk.branch && forall|j: int|
                    0 <= j < i ==> !((#[trigger] items[j]).action is Create)
                        && !(items[j].action is RefreshExisting)
                ||| exists|k: int|
                    0 <= k < i && base == (#[trigger] stack.branches[k]).branch && (
                    items[k].action is Create || items[k].action is RefreshExisting) && forall|
                        j: int,
                    |
                        k < j < i ==> !((#[trigger] items[j]).action is Create)
                            && !(items[j].action is RefreshExisting)
            }
        }),
{
    let items = item_views(plan@);
    law_plan_covers_stack(stack, events, Ok(plan));
    assert(items.len() == plan@.len());
    assert(item_fits(stack, items, i));
    let below = items.take(i);
    law_base_is_acted_on(stack.trunk.branch, below);
    assert forall|j: int| 0 <= j < i implies #[trigger] items[j] == below[j] by {}
    if items[i].action is Create && exists|k: int|
        0 <= k < below.len() && (#[trigger] below[k]).action.acts() && chain_base(
            stack.trunk.branch,
            below,
        ) == below[k].branch && forall|j: int|
            k < j < below.len() ==> !(#[trigger] below[j]).action.acts() {
        let k = choose|k: int|
            0 <= k < below.len() && (#[trigger] below[k]).action.acts() && chain_base(
                stack.trunk.branch,
                below,
            ) == below[k].branch && forall|j: int|
                k < j < below.len() ==> !(#[trigger] below[j]).action.acts();
        assert(item_fits(stack, items, k));
        assert(stack.branches[k].branch == below[k].branch);
    }
}

/// The worktree of a stack is one that has a branch of the stack checked out. It is
/// live where its directory is there and missing where it is gone; it is missing
/// only where no branch's own worktree is there, and absent only where no branch
/// has one.
#[verifier::rlimit(40)]
pub proof fn law_worktree_shows_stack(
    stack: StackView,
    worktrees: Seq<WorktreeView>,
    cwd: Seq<char>,
)
    ensures
        match stack.worktree(worktrees, cwd) {
            StatusView::Live(p) => exists|k: int|
                0 <= k < worktrees.len() && (#[trigger] worktrees[k]).path == p
                    && worktrees[k].present && stack.has(worktrees[k].branch),
            StatusView::Missing(p) => {
                &&& exists|k: int|
                    0 <= k < worktrees.len() && (#[trigger] worktrees[k]).path == p
                        && !worktrees[k].present && stack.has(worktrees[k].branch)
                &&& forall|k: int|
                    0 <= k < worktrees.len() && (#[trigger] worktrees[k]).present && stack.has(
                        worktrees[k].branch,
                    ) ==> exists|j: int|
                        0 <= j < k && (#[trigger] worktrees[j]).branch == worktrees[k].branch
            },
            StatusView::Absent => forall|k: int|
                0 <= k < worktrees.len() ==> !stack.has((#[trigger] worktrees[k]).branch),
        },
        forall|k: int|
            0 <= k < worktrees.len() && (#[trigger] worktrees[k]).present && stack.has(
                worktrees[k].branch,
            ) && paths::under(cwd, worktrees[k].path) ==> (stack.worktree(
                worktrees,
                cwd,
            ) matches StatusView::Live(p) && paths::under(cwd, p)),
{
    seqs::lemma_first_where_is(worktrees, owning(stack, cwd));
    let here = with_worktree(worktrees, true);
    let gone = with_worktree(worktrees, false);
    seqs::lemma_first_where_is(stack.branches, here);
    seqs::lemma_first_where_is(stack.branches, gone);
    assert forall|i: int| 0 <= i < stack.branches.len() implies match worktree_of(
        worktrees,
        (#[trigger] stack.branches[i]).branch,
    ) {
        Some(w) => exists|k: int|
            0 <= k < worktrees.len() && (#[trigger] worktrees[k]) == w && w.branch
                == stack.branches[i].branch && forall|j: int|
                0 <= j < k ==> (#[trigger] worktrees[j]).branch != w.branch,
        None => forall|k: int|
            0 <= k < worktrees.len() ==> (#[trigger] worktrees[k]).branch
                != stack.branches[i].branch,
    } by {
        let name = stack.branches[i].branch;
        seqs::lemma_first_where_is(worktrees, showing(name));
        match seqs::first_where(worktrees, showing(name)) {
            Some(k) => {
                assert(showing(name)(worktrees[k]));
                assert forall|j: int| 0 <= j < k implies (#[trigger] worktrees[j]).branch != name by {
                    assert(!showing(name)(worktrees[j]));
                }
                assert(worktrees[k].branch == name);
            },
            None => {
                assert forall|k: int| 0 <= k < worktrees.len() implies (
                #[trigger] worktrees[k]).branch != name by {
                    assert(!showing(name)(worktrees[k]));
                }
            },
        }
    }
    assert forall|k: int|
        0 <= k < worktrees.len() && (#[trigger] worktrees[k]).present && stack.has(
            worktrees[k].branch,
        ) && paths::under(cwd, worktrees[k].path) implies (stack.worktree(
        worktrees,
        cwd,
    ) matches StatusView::Live(p) && paths::under(cwd, p)) by {
        assert(owning(stack, cwd)(worktrees[k]));
    }
    match seqs::first_where(worktrees, owning(stack, cwd)) {
        Some(k) => {
            assert(owning(stack, cwd)(worktrees[k]));
        },
        None => match seqs::first_where(stack.branches, here) {
            Some(i) => {
                assert(here(stack.branches[i]));
                let w = worktree_of(worktrees, stack.branches[i].branch)->0;
                let k = choose|k: int|
                    0 <= k < worktrees.len() && (#[trigger] worktrees[k]) == w && w.branch
                        == stack.branches[i].branch;
                assert(stack.has(worktrees[k].branch));
            },
            None => {
                assert forall|k: int|
                    0 <= k < worktrees.len() && (#[trigger] worktrees[k]).present && stack.has(
                        worktrees[k].branch,
                    ) implies exists|j: int|
                    0 <= j < k && (#[trigger] worktrees[j]).branch == worktrees[k].branch by {
                    let name = worktrees[k].branch;
                    let i = choose|i: int|
                        0 <= i < stack.branches.len() && (#[trigger] stack.branches[i]).branch
                            == name;
                    assert(!here(stack.branches[i]));
                    let w = worktree_of(worktrees, name)->0;
                    let j = choose|j: int|
                        0 <= j < worktrees.len() && (#[trigger] worktrees[j]) == w && w.branch
                            == stack.branches[i].branch && forall|m: int|
                            0 <= m < j ==> (#[trigger] worktrees[m]).branch != w.branch;
                    assert(j <= k);
                    assert(worktrees[j].branch == name);
                }
                match seqs::first_where(stack.branches, gone) {
                    Some(i) => {
                        assert(gone(stack.branches[i]));
                        let w = worktree_of(worktrees, stack.branches[i].branch)->0;
                        let k = choose|k: int|
                            0 <= k < worktrees.len() && (#[trigger] worktrees[k]) == w && w.branch
                                == stack.branches[i].branch;
                        assert(stack.has(worktrees[k].branch));
                    },
                    None => {
                        assert forall|k: int| 0 <= k < worktrees.len() implies !stack.has(
                            (#[trigger] worktrees[k]).branch,
                        ) by {
                            if stack.has(worktrees[k].branch) {
                                let i = choose|i: int|
                                    0 <= i < stack.branches.len() && (
                                    #[trigger] stack.branches[i]).branch == worktrees[k].branch;
                                assert(!here(stack.branches[i]) && !gone(stack.branches[i]));
                            }
                        }
                    },
                }
            },
        },
    }
}

} // verus!
