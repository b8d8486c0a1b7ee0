//! Pools: flat collections of independent branches. Pool members do not
//! depend on each other; each carries a base of its own and rebases directly
//! onto that.

use vstd::prelude::*;

use crate::domain::stack::{Trunk, TrunkView, SCHEMA_VERSION};
use crate::seqs;
use crate::text;

verus! {

/// A set of branches that share a default trunk.
#[derive(Debug, PartialEq, Eq)]
pub struct Pool {
    /// `None` is the default pool.
    pub name: Option<String>,
    /// Default base for branches added without one of their own.
    pub trunk: Trunk,
    pub branches: Vec<PoolBranch>,
    /// When pull-request data was last fetched, as an RFC 3339 timestamp.
    pub last_refreshed_at: Option<String>,
}

/// One branch of a pool.
#[derive(Debug, PartialEq, Eq)]
pub struct PoolBranch {
    pub branch: String,
    pub head: Option<String>,
    /// Name of the branch this one is based on; an empty name stands for the
    /// pool's trunk.
    pub base_branch: String,
    /// The commit of the base at the last rebase, or when the branch came in.
    pub base: String,
    pub pull_request: Option<PoolPullRequest>,
}

/// The pull request of a pool branch.
#[derive(Debug, PartialEq, Eq)]
pub struct PoolPullRequest {
    pub number: u64,
    pub id: String,
    pub url: String,
    pub merged: bool,
    /// Comments seen on the pull request at the last refresh.
    pub comment_count: u64,
    /// Comments there were when the user last looked.
    pub seen_comment_count: u64,
    /// `None` where unknown, `Some(false)` where there are conflicts.
    pub mergeable: Option<bool>,
}

/// Every pool tracked for a repository.
#[derive(Debug, PartialEq, Eq)]
pub struct PoolFile {
    pub schema_version: u32,
    pub repository: String,
    pub pools: Vec<Pool>,
}

#[verifier::ext_equal]
pub struct PoolPullRequestView {
    pub number: u64,
    pub id: Seq<char>,
    pub url: Seq<char>,
    pub merged: bool,
    pub comment_count: u64,
    pub seen_comment_count: u64,
    pub mergeable: Option<bool>,
}

#[verifier::ext_equal]
pub struct PoolBranchView {
    pub branch: Seq<char>,
    pub head: Option<Seq<char>>,
    pub base_branch: Seq<char>,
    pub base: Seq<char>,
    pub pull_request: Option<PoolPullRequestView>,
}

#[verifier::ext_equal]
pub struct PoolView {
    pub name: Option<Seq<char>>,
    pub trunk: TrunkView,
    pub branches: Seq<PoolBranchView>,
    pub last_refreshed_at: Option<Seq<char>>,
}

#[verifier::ext_equal]
pub struct PoolFileView {
    pub schema_version: u32,
    pub repository: Seq<char>,
    pub pools: Seq<PoolView>,
}

impl View for PoolPullRequest {
    type V = PoolPullRequestView;

    open spec fn view(&self) -> PoolPullRequestView {
        PoolPullRequestView {
            number: self.number,
            id: self.id@,
            url: self.url@,
            merged: self.merged,
            comment_count: self.comment_count,
            seen_comment_count: self.seen_comment_count,
            mergeable: self.mergeable,
        }
    }
}

/// The model of an optional pull request.
pub open spec fn pr_view(o: Option<PoolPullRequest>) -> Option<PoolPullRequestView> {
    match o {
        Some(p) => Some(p@),
        None => None,
    }
}

impl View for PoolBranch {
    type V = PoolBranchView;

    open spec fn view(&self) -> PoolBranchView {
        PoolBranchView {
            branch: self.branch@,
            head: text::opt_view(self.head),
            base_branch: self.base_branch@,
            base: self.base@,
            pull_request: pr_view(self.pull_request),
        }
    }
}

/// The models of a list of branches.
pub open spec fn branch_views(list: Seq<PoolBranch>) -> Seq<PoolBranchView> {
    list.map_values(|b: PoolBranch| b@)
}

impl View for Pool {
    type V = PoolView;

    open spec fn view(&self) -> PoolView {
        PoolView {
            name: text::opt_view(self.name),
            trunk: self.trunk@,
            branches: branch_views(self.branches@),
            last_refreshed_at: text::opt_view(self.last_refreshed_at),
        }
    }
}

/// The models of a list of pools.
pub open spec fn pool_views(list: Seq<Pool>) -> Seq<PoolView> {
    list.map_values(|p: Pool| p@)
}

impl View for PoolFile {
    type V = PoolFileView;

    open spec fn view(&self) -> PoolFileView {
        PoolFileView {
            schema_version: self.schema_version,
            repository: self.repository@,
            pools: pool_views(self.pools@),
        }
    }
}

impl Clone for PoolPullRequest {
    fn clone(&self) -> (r: Self)
        ensures
            r == *self,
    {
        PoolPullRequest {
            number: self.number,
            id: self.id.clone(),
            url: self.url.clone(),
            merged: self.merged,
            comment_count: self.comment_count,
            seen_comment_count: self.seen_comment_count,
            mergeable: self.mergeable,
        }
    }
}

impl Clone for PoolBranch {
    fn clone(&self) -> (r: Self)
        ensures
            r == *self,
    {
        PoolBranch {
            branch: self.branch.clone(),
            head: text::copy_opt(&self.head),
            base_branch: self.base_branch.clone(),
            base: self.base.clone(),
            pull_request: match &self.pull_request {
                Some(p) => Some(p.clone()),
                None => None,
            },
        }
    }
}

impl Clone for Pool {
    fn clone(&self) -> (r: Self)
        ensures
            r@ == self@,
    {
        let mut branches: Vec<PoolBranch> = Vec::new();
        let mut i: usize = 0;
        while i < self.branches.len()
            invariant
                i <= self.branches.len(),
                branches@ == self.branches@.take(i as int),
            decreases self.branches.len() - i,
        {
            branches.push(self.branches[i].clone());
            assert(branches@ =~= self.branches@.take(i + 1));
            i = i + 1;
        }
        assert(branches@ =~= self.branches@);
        Pool {
            name: text::copy_opt(&self.name),
            trunk: self.trunk.clone(),
            branches,
            last_refreshed_at: text::copy_opt(&self.last_refreshed_at),
        }
    }
}

impl Clone for PoolFile {
    fn clone(&self) -> (r: Self)
        ensures
            r@ == self@,
    {
        let mut pools: Vec<Pool> = Vec::new();
        let mut i: usize = 0;
        assert(pool_views(pools@) =~= pool_views(self.pools@).take(0));
        while i < self.pools.len()
            invariant
                i <= self.pools.len(),
                pool_views(pools@) == pool_views(self.pools@).take(i as int),
            decreases self.pools.len() - i,
        {
            let ghost before = pool_views(pools@);
            let pool = self.pools[i].clone();
            let ghost model = pool@;
            pools.push(pool);
            assert(pool_views(pools@) =~= before.push(model));
            assert(pool_views(pools@) =~= pool_views(self.pools@).take(i + 1));
            i = i + 1;
        }
        assert(pool_views(pools@) =~= pool_views(self.pools@));
        PoolFile {
            schema_version: self.schema_version,
            repository: self.repository.clone(),
            pools,
        }
    }
}

impl PoolBranchView {
    /// Whether the branch's pull request was merged.
    pub open spec fn is_merged(self) -> bool {
        self.pull_request matches Some(p) && p.merged
    }

    /// The name of the branch that this one is based on.
    pub open spec fn effective_base(self, trunk: Seq<char>) -> Seq<char> {
        if self.base_branch.len() == 0 {
            trunk
        } else {
            self.base_branch
        }
    }

    /// Comments that came in since the user last looked.
    pub open spec fn unread(self) -> u64 {
        match self.pull_request {
            Some(p) => if p.comment_count > p.seen_comment_count {
                (p.comment_count - p.seen_comment_count) as u64
            } else {
                0
            },
            None => 0,
        }
    }
}

/// The branches with a given name.
pub open spec fn named(name: Seq<char>) -> spec_fn(PoolBranchView) -> bool {
    |b: PoolBranchView| b.branch == name
}

impl PoolView {
    /// Whether a branch of this name is in the pool.
    pub open spec fn has(self, name: Seq<char>) -> bool {
        exists|i: int| 0 <= i < self.branches.len() && (#[trigger] self.branches[i]).branch == name
    }

    /// Where the first branch of this name stands.
    pub open spec fn position(self, name: Seq<char>) -> Option<int> {
        seqs::first_where(self.branches, named(name))
    }

    /// What the pool is called in messages and listings.
    pub open spec fn label(self) -> Seq<char> {
        match self.name {
            Some(n) => n,
            None => "(default)"@,
        }
    }
}

/// The pools with a given name.
pub open spec fn called(name: Option<Seq<char>>) -> spec_fn(PoolView) -> bool {
    |p: PoolView| p.name == name
}

/// The pools that hold a branch of this name.
pub open spec fn holding(name: Seq<char>) -> spec_fn(PoolView) -> bool {
    |p: PoolView| p.has(name)
}

impl PoolFileView {
    /// A file with no pools.
    pub open spec fn empty(repository: Seq<char>) -> PoolFileView {
        PoolFileView { schema_version: SCHEMA_VERSION, repository, pools: Seq::empty() }
    }

    /// Where the pool of this name stands; `None` names the default pool.
    pub open spec fn position(self, name: Option<Seq<char>>) -> Option<int> {
        seqs::first_where(self.pools, called(name))
    }

    /// Where the first pool that holds this branch stands.
    pub open spec fn position_containing(self, branch: Seq<char>) -> Option<int> {
        seqs::first_where(self.pools, holding(branch))
    }
}

impl PoolBranch {
    /// The name of the branch that this one is based on: its own, or the
    /// pool's trunk where it has none.
    pub fn effective_base_branch<'a>(&'a self, pool: &'a Pool) -> (r: &'a str)
        ensures
            r@ == self@.effective_base(pool@.trunk.branch),
    {
        if self.base_branch.as_str().is_empty() {
            pool.trunk.branch.as_str()
        } else {
            self.base_branch.as_str()
        }
    }

    /// Whether the branch's pull request was merged.
    pub fn is_merged(&self) -> (r: bool)
        ensures
            r == self@.is_merged(),
    {
        match &self.pull_request {
            Some(p) => p.merged,
            None => false,
        }
    }

    /// Comments that came in since the user last looked.
    pub fn unread_comments(&self) -> (r: u64)
        ensures
            r == self@.unread(),
    {
        match &self.pull_request {
            Some(p) => if p.comment_count > p.seen_comment_count {
                p.comment_count - p.seen_comment_count
            } else {
                0
            },
            None => 0,
        }
    }
}

impl Pool {
    /// Whether a branch of this name is in the pool.
    pub fn contains(&self, branch: &str) -> (r: bool)
        ensures
            r == self@.has(branch@),
    {
        let found = self.position(branch);
        proof {
            seqs::lemma_first_where_is(self@.branches, named(branch@));
        }
        found.is_some()
    }

    /// Where the branch of this name stands.
    pub fn position(&self, branch: &str) -> (r: Option<usize>)
        ensures
            match r {
                Some(i) => self@.position(branch@) == Some(i as int) && i < self.branches@.len(),
                None => self@.position(branch@) is None,
            },
    {
        let ghost all = self@.branches;
        let mut i: usize = 0;
        while i < self.branches.len()
            invariant
                i <= self.branches.len(),
                all == branch_views(self.branches@),
                all == self@.branches,
                forall|j: int| 0 <= j < i ==> !named(branch@)(#[trigger] all[j]),
            decreases self.branches.len() - i,
        {
            assert(all[i as int] == self.branches@[i as int]@);
            if text::same(self.branches[i].branch.as_str(), branch) {
                proof {
                    seqs::lemma_first_where(all, named(branch@), i as int);
                }
                return Some(i);
            }
            i = i + 1;
        }
        proof {
            seqs::lemma_first_where_none(all, named(branch@));
        }
        None
    }

    /// What the pool is called in messages and listings.
    pub fn display_label(&self) -> (r: &str)
        ensures
            r@ == self@.label(),
    {
        match &self.name {
            Some(n) => n.as_str(),
            None => "(default)",
        }
    }
}

impl PoolFile {
    /// A file with no pools.
    pub fn empty(repository: &str) -> (r: Self)
        ensures
            r@ == PoolFileView::empty(repository@),
    {
        let pools: Vec<Pool> = Vec::new();
        assert(pool_views(pools@) =~= Seq::<PoolView>::empty());
        PoolFile { schema_version: SCHEMA_VERSION, repository: repository.to_string(), pools }
    }

    /// Locate a pool by its name; `None` is the default pool.
    pub fn pool_position(&self, name: Option<&str>) -> (r: Option<usize>)
        ensures
            match r {
                Some(i) => self@.position(text::opt_str_view(name)) == Some(i as int) && i
                    < self.pools@.len(),
                None => self@.position(text::opt_str_view(name)) is None,
            },
    {
        let ghost all = self@.pools;
        let ghost p = called(text::opt_str_view(name));
        let mut i: usize = 0;
        while i < self.pools.len()
            invariant
                i <= self.pools.len(),
                all == pool_views(self.pools@),
                all == self@.pools,
                p == called(text::opt_str_view(name)),
                forall|j: int| 0 <= j < i ==> !p(#[trigger] all[j]),
            decreases self.pools.len() - i,
        {
            assert(all[i as int] == self.pools@[i as int]@);
            if text::same_opt(&self.pools[i].name, name) {
                proof {
                    seqs::lemma_first_where(all, p, i as int);
                }
                return Some(i);
            }
            i = i + 1;
        }
        proof {
            seqs::lemma_first_where_none(all, p);
        }
        None
    }

    /// Locate the first pool that holds `branch`.
    pub fn pool_position_containing(&self, branch: &str) -> (r: Option<usize>)
        ensures
            match r {
                Some(i) => self@.position_containing(branch@) == Some(i as int) && i
                    < self.pools@.len(),
                None => self@.position_containing(branch@) is None,
            },
    {
        let ghost all = self@.pools;
        let mut i: usize = 0;
        while i < self.pools.len()
            invariant
                i <= self.pools.len(),
                all == pool_views(self.pools@),
                all == self@.pools,
                forall|j: int| 0 <= j < i ==> !holding(branch@)(#[trigger] all[j]),
            decreases self.pools.len() - i,
        {
            assert(all[i as int] == self.pools@[i as int]@);
            if self.pools[i].contains(branch) {
                proof {
                    seqs::lemma_first_where(all, holding(branch@), i as int);
                }
                return Some(i);
            }
            i = i + 1;
        }
        proof {
            seqs::lemma_first_where_none(all, holding(branch@));
        }
        None
    }
}

/// A pool is called by its name, and every pool without one alike.
pub proof fn law_label_is_name(a: PoolView, b: PoolView)
    ensures
        a.name matches Some(n) ==> a.label() == n,
        a.name is None && b.name is None ==> a.label() == b.label(),
{
}

/// A branch that names no base sits on the pool's trunk, and any other on the one
/// it names, whatever the trunk is.
pub proof fn law_base_is_own_or_trunk(b: PoolBranchView, trunk: Seq<char>, other: Seq<char>)
    ensures
        b.base_branch.len() == 0 ==> b.effective_base(trunk) == trunk,
        b.base_branch.len() > 0 ==> b.effective_base(trunk) == b.base_branch && b.effective_base(
            trunk,
        ) == b.effective_base(other),
{
}

/// What is unread is what came in beyond what was seen, and nothing where nothing
/// did.
pub proof fn law_unread_is_beyond_seen(b: PoolBranchView)
    ensures
        b.pull_request is None ==> b.unread() == 0,
        b.pull_request matches Some(p) ==> {
            &&& p.comment_count >= p.seen_comment_count ==> p.seen_comment_count + b.unread()
                == p.comment_count
            &&& p.comment_count < p.seen_comment_count ==> b.unread() == 0
        },
{
}

} // verus!
