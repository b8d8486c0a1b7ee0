//! `pool list`: every pool with each branch's pull-request state, rebase
//! status and unread comments.

use vstd::prelude::*;

use crate::clock;
use crate::domain::error::StackError;
use crate::domain::pool::{
    branch_views, pool_views, Pool, PoolBranch, PoolBranchView, PoolFile, PoolFileView,
    PoolPullRequest, PoolPullRequestView, PoolView,
};
use crate::git::{GitEvent, GitOps};
use crate::github::GitHub;
use crate::ops::pool::prune::{
    refresh_targets, refreshed, refreshes_targets, run_events, targets,
};
use crate::ops::pool::refresh::{all_seen, mark_seen, names_of, BranchTalk};
use crate::ops::view::row_for;
use crate::seqs;
use crate::style;
use crate::style::glyph;
use crate::text;

verus! {

#[derive(Debug)]
pub struct ListArgs {
    pub json: bool,
    pub refresh: bool,
}

/// Whether a branch needs a rebase, where its base is at the commit answered:
/// it is not merged, and was last based on another. A base that git cannot
/// resolve asks for nothing.
pub open spec fn lagging(b: PoolBranchView, e: GitEvent) -> bool {
    e matches GitEvent::RevParse { reply, .. } && (reply matches Ok(live) && !b.is_merged() && live@
        != b.base)
}

/// Whether git was asked where the base of each branch is.
pub open spec fn asks_bases(pool: PoolView, events: Seq<GitEvent>) -> bool {
    &&& events.len() == pool.branches.len()
    &&& forall|i: int|
        0 <= i < events.len() ==> (#[trigger] events[i] matches GitEvent::RevParse { rev, .. }
            && rev == pool.branches[i].effective_base(pool.trunk.branch))
}

/// Which branches of a pool need a rebase.
pub open spec fn lags(pool: PoolView, events: Seq<GitEvent>) -> Seq<bool> {
    Seq::new(pool.branches.len(), |i: int| lagging(pool.branches[i], events[i]))
}

/// Which branches of a pool need a rebase, asked of git.
fn survey_pool<G: GitOps>(git: &mut G, pool: &Pool) -> (r: (Vec<bool>, Ghost<Seq<GitEvent>>))
    ensures
        final(git).history() == old(git).history() + r.1@,
        asks_bases(pool@, r.1@),
        r.0@ == lags(pool@, r.1@),
{
    let ghost all = pool@.branches;
    let ghost mut events: Seq<GitEvent> = Seq::empty();
    let mut flags: Vec<bool> = Vec::new();
    let mut i: usize = 0;
    assert(git.history() =~= old(git).history() + events);
    while i < pool.branches.len()
        invariant
            i <= pool.branches.len(),
            all == branch_views(pool.branches@),
            all == pool@.branches,
            events.len() == i,
            flags@.len() == i,
            git.history() == old(git).history() + events,
            forall|j: int|
                0 <= j < i ==> (#[trigger] events[j] matches GitEvent::RevParse { rev, .. } && rev
                    == all[j].effective_base(pool@.trunk.branch)),
            forall|j: int| 0 <= j < i ==> #[trigger] flags@[j] == lagging(all[j], events[j]),
        decreases pool.branches.len() - i,
    {
        let b = &pool.branches[i];
        assert(all[i as int] == b@);
        let base = b.effective_base_branch(pool);
        let reply = git.rev_parse(base);
        let ghost more = events.push(GitEvent::RevParse { rev: base@, reply });
        proof {
            assert(git.history() =~= old(git).history() + more);
            assert forall|j: int| 0 <= j < i + 1 implies (
            #[trigger] more[j] matches GitEvent::RevParse { rev, .. } && rev
                == all[j].effective_base(pool@.trunk.branch)) by {
                if j < i {
                    assert(more[j] == events[j]);
                }
            }
        }
        let flag = match reply {
            Ok(live) => !b.is_merged() && live != b.base,
            Err(_) => false,
        };
        let ghost before = flags@;
        flags.push(flag);
        proof {
            assert forall|j: int| 0 <= j < i + 1 implies #[trigger] flags@[j] == lagging(
                all[j],
                more[j],
            ) by {
                if j < i {
                    assert(before[j] == flags@[j]);
                    assert(more[j] == events[j]);
                }
            }
            events = more;
        }
        i = i + 1;
    }
    assert(flags@ =~= lags(pool@, events));
    (flags, Ghost(events))
}

/// The flags of a list of pools.
pub open spec fn flag_views(list: Seq<Vec<bool>>) -> Seq<Seq<bool>> {
    list.map_values(|v: Vec<bool>| v@)
}

/// Whether git was asked where the base of every branch is, pool after pool,
/// and these flags say which branches need a rebase.
pub open spec fn surveys(
    talks: Seq<Seq<GitEvent>>,
    pools: Seq<PoolView>,
    flags: Seq<Seq<bool>>,
) -> bool {
    &&& talks.len() == pools.len()
    &&& flags.len() == pools.len()
    &&& forall|p: int| 0 <= p < pools.len() ==> asks_bases(pools[p], #[trigger] talks[p])
    &&& forall|p: int| 0 <= p < pools.len() ==> #[trigger] flags[p] == lags(pools[p], talks[p])
}

/// Which branches need a rebase, pool after pool, asked of git.
pub fn survey<G: GitOps>(git: &mut G, file: &PoolFile) -> (r: Vec<Vec<bool>>)
    ensures
        exists|talks: Seq<Seq<GitEvent>>|
            #[trigger] surveys(talks, file@.pools, flag_views(r@)) && final(git).history() == old(
                git,
            ).history() + seqs::joined(talks),
{
    let ghost pools = file@.pools;
    let ghost mut talks: Seq<Seq<GitEvent>> = Seq::empty();
    let mut out: Vec<Vec<bool>> = Vec::new();
    let mut p: usize = 0;
    assert(git.history() =~= old(git).history() + seqs::joined(talks));
    while p < file.pools.len()
        invariant
            p <= file.pools.len(),
            pools == pool_views(file.pools@),
            pools == file@.pools,
            talks.len() == p,
            out@.len() == p,
            git.history() == old(git).history() + seqs::joined(talks),
            forall|q: int| 0 <= q < p ==> asks_bases(pools[q], #[trigger] talks[q]),
            forall|q: int|
                0 <= q < p ==> #[trigger] flag_views(out@)[q] == lags(pools[q], talks[q]),
        decreases file.pools.len() - p,
    {
        assert(pools[p as int] == file.pools@[p as int]@);
        let (flags, Ghost(events)) = survey_pool(git, &file.pools[p]);
        let ghost before = flag_views(out@);
        let ghost model = flags@;
        let ghost more = talks.push(events);
        out.push(flags);
        proof {
            seqs::lemma_joined_push(talks, events);
            assert(git.history() =~= old(git).history() + seqs::joined(more));
            assert(flag_views(out@) =~= before.push(model));
            assert forall|q: int| 0 <= q < p + 1 implies asks_bases(pools[q], #[trigger] more[q]) by {
                if q < p {
                    assert(more[q] == talks[q]);
                }
            }
            assert forall|q: int| 0 <= q < p + 1 implies #[trigger] flag_views(out@)[q] == lags(
                pools[q],
                more[q],
            ) by {
                if q < p {
                    assert(flag_views(out@)[q] == before[q]);
                    assert(more[q] == talks[q]);
                }
            }
            talks = more;
        }
        p = p + 1;
    }
    assert(flag_views(out@).len() == out@.len());
    assert(surveys(talks, pools, flag_views(out@)));
    out
}

/// The width of the longest branch name.
pub open spec fn widest(branches: Seq<PoolBranchView>) -> usize
    decreases branches.len(),
{
    if branches.len() == 0 {
        0
    } else {
        let w = widest(branches.drop_last());
        if text::width(branches.last().branch) > w {
            text::width(branches.last().branch)
        } else {
            w
        }
    }
}

fn find_widest(branches: &Vec<PoolBranch>) -> (r: usize)
    ensures
        r == widest(branch_views(branches@)),
{
    let ghost all = branch_views(branches@);
    let mut w: usize = 0;
    let mut i: usize = 0;
    while i < branches.len()
        invariant
            i <= branches.len(),
            all == branch_views(branches@),
            w == widest(all.take(i as int)),
        decreases branches.len() - i,
    {
        assert(all.take(i + 1).drop_last() =~= all.take(i as int));
        assert(all[i as int] == branches@[i as int]@);
        let n: usize = branches[i].branch.as_str().len();
        if n > w {
            w = n;
        }
        i = i + 1;
    }
    assert(all.take(branches.len() as int) =~= all);
    w
}

/// Number and state of a pull request.
pub open spec fn pr_part(pr: Option<PoolPullRequestView>, on: bool) -> Seq<char> {
    match pr {
        Some(p) => style::secondary_of("#"@ + text::decimal(p.number as nat), on) + "  "@
            + if p.merged {
            style::merged_of("merged"@, on)
        } else {
            style::ok_of("open"@, on)
        },
        None => style::dim_of("(no PR)"@, on),
    }
}

fn make_pr_part(pr: &Option<PoolPullRequest>, on: bool) -> (r: String)
    ensures
        r@ == pr_part(crate::domain::pool::pr_view(*pr), on),
{
    match pr {
        Some(p) => {
            let number = text::cat("#", text::to_decimal(p.number).as_str());
            let state = if p.merged {
                style::merged("merged", on)
            } else {
                style::ok("open", on)
            };
            text::cat3(style::secondary(number.as_str(), on).as_str(), "  ", state.as_str())
        },
        None => style::dim("(no PR)", on),
    }
}

/// The warnings behind a branch: that it needs a rebase, that it conflicts,
/// and how many comments are unread.
pub open spec fn tags(b: PoolBranchView, needs_rebase: bool, on: bool) -> Seq<char> {
    let rebase = if needs_rebase {
        "  "@ + style::warn_of("▲"@, on) + " "@ + style::warn_of("needs rebase"@, on)
    } else {
        ""@
    };
    let conflict = if b.pull_request matches Some(p) && p.mergeable == Some(false) {
        "  "@ + style::warn_of("⚠"@, on) + " "@ + style::warn_of("conflicts"@, on)
    } else {
        ""@
    };
    let unread = if b.unread() > 0 {
        "  "@ + style::accent_of("✉"@, on) + " "@ + style::accent_of(
            text::decimal(b.unread() as nat) + " new comment"@ + if b.unread() == 1 {
                ""@
            } else {
                "s"@
            },
            on,
        )
    } else {
        ""@
    };
    rebase + conflict + unread
}

fn make_tags(b: &PoolBranch, needs_rebase: bool, on: bool) -> (r: String)
    ensures
        r@ == tags(b@, needs_rebase, on),
{
    let rebase = if needs_rebase {
        let mut s = text::cat3("  ", style::warn(glyph::WARN, on).as_str(), " ");
        s.append(style::warn("needs rebase", on).as_str());
        s
    } else {
        "".to_string()
    };
    let conflicts = match &b.pull_request {
        Some(p) => match p.mergeable {
            Some(m) => !m,
            None => false,
        },
        None => false,
    };
    let conflict = if conflicts {
        let mut s = text::cat3("  ", style::warn("⚠", on).as_str(), " ");
        s.append(style::warn("conflicts", on).as_str());
        s
    } else {
        "".to_string()
    };
    let n: u64 = b.unread_comments();
    let unread = if n > 0 {
        let mut words = text::cat(text::to_decimal(n).as_str(), " new comment");
        if n == 1 {
            words.append("");
        } else {
            words.append("s");
        }
        let mut s = text::cat3("  ", style::accent("✉", on).as_str(), " ");
        s.append(style::accent(words.as_str(), on).as_str());
        s
    } else {
        "".to_string()
    };
    text::cat3(rebase.as_str(), conflict.as_str(), unread.as_str())
}

/// The lines of one branch: what it is, and the URL of its pull request.
pub open spec fn branch_lines(
    b: PoolBranchView,
    base: Seq<char>,
    width: usize,
    needs_rebase: bool,
    on: bool,
) -> Seq<Seq<char>> {
    let marker = if b.is_merged() {
        style::merged_of("✓"@, on)
    } else {
        style::dim_of("○"@, on)
    };
    let name = if b.is_merged() {
        style::merged_of(b.branch, on)
    } else {
        b.branch
    };
    let row = "  "@ + marker + "  "@ + name + text::padding(b.branch, width) + "    "@
        + style::dim_of("→"@, on) + " "@ + style::secondary_of(base, on) + "    "@ + pr_part(
        b.pull_request,
        on,
    ) + tags(b, needs_rebase, on);
    match b.pull_request {
        Some(p) => seq![
            row,
            "  "@ + style::dim_of("│"@, on) + "     "@ + style::url_of(p.url, on),
        ],
        None => seq![row],
    }
}

fn make_branch_lines(
    b: &PoolBranch,
    base: &str,
    width: usize,
    needs_rebase: bool,
    on: bool,
) -> (r: Vec<String>)
    ensures
        text::views(r@) == branch_lines(b@, base@, width, needs_rebase, on),
{
    let marker = if b.is_merged() {
        style::merged(glyph::MERGED, on)
    } else {
        style::dim(glyph::ACTIVE, on)
    };
    let name = if b.is_merged() {
        style::merged(b.branch.as_str(), on)
    } else {
        b.branch.clone()
    };
    let mut row = text::cat3("  ", marker.as_str(), "  ");
    row.append(name.as_str());
    row.append(text::pad(b.branch.as_str(), width).as_str());
    row.append("    ");
    row.append(style::dim("→", on).as_str());
    row.append(" ");
    row.append(style::secondary(base, on).as_str());
    row.append("    ");
    row.append(make_pr_part(&b.pull_request, on).as_str());
    row.append(make_tags(b, needs_rebase, on).as_str());
    let mut out: Vec<String> = Vec::new();
    out.push(row);
    if let Some(p) = &b.pull_request {
        let mut line = text::cat3("  ", style::dim(glyph::CHAIN, on).as_str(), "     ");
        line.append(style::url(p.url.as_str(), on).as_str());
        out.push(line);
    }
    assert(text::views(out@) =~= branch_lines(b@, base@, width, needs_rebase, on));
    out
}

/// The lines of the first `n` branches of a pool.
pub open spec fn rows(pool: PoolView, flags: Seq<bool>, n: int, on: bool) -> Seq<Seq<char>>
    decreases n,
{
    if n <= 0 {
        Seq::empty()
    } else {
        let b = pool.branches[n - 1];
        rows(pool, flags, n - 1, on) + branch_lines(
            b,
            b.effective_base(pool.trunk.branch),
            widest(pool.branches),
            flags[n - 1],
            on,
        )
    }
}

/// How fresh the pull-request data is.
pub open spec fn freshness(stamp: Option<Seq<char>>, now: i128, never: Seq<char>, on: bool) -> Seq<
    char,
> {
    match stamp {
        Some(ts) => style::dim_of("refreshed "@ + clock::age_of(ts, now), on),
        None => style::dim_of(never, on),
    }
}

/// How fresh the pull-request data is; `never` where it was never fetched.
pub(crate) fn make_freshness(stamp: &Option<String>, now: i128, never: &str, on: bool) -> (r:
    String)
    requires
        clock::in_range(now),
    ensures
        r@ == freshness(text::opt_view(*stamp), now, never@, on),
{
    match stamp {
        Some(ts) => {
            let age = clock::age_at(ts.as_str(), now);
            style::dim(text::cat("refreshed ", age.as_str()).as_str(), on)
        },
        None => style::dim(never, on),
    }
}

/// The lines of one pool: a blank one, its heading, its branches.
pub open spec fn pool_lines(pool: PoolView, flags: Seq<bool>, now: i128, on: bool) -> Seq<
    Seq<char>,
> {
    let sep = style::dim_of("·"@, on);
    let heading = "  "@ + style::bold_of(pool.label(), on) + "  "@ + sep + "  "@ + style::dim_of(
        "default base"@,
        on,
    ) + " "@ + style::secondary_of(pool.trunk.branch, on) + "  "@ + sep + "  "@ + freshness(
        pool.last_refreshed_at,
        now,
        "never refreshed (`pool refresh`)"@,
        on,
    );
    seq![""@, heading] + if pool.branches.len() == 0 {
        seq!["  "@ + style::dim_of("(empty pool)"@, on)]
    } else {
        rows(pool, flags, pool.branches.len() as int, on)
    }
}

fn make_pool_lines(pool: &Pool, flags: &Vec<bool>, now: i128, on: bool) -> (r: Vec<String>)
    requires
        clock::in_range(now),
        flags@.len() == pool.branches@.len(),
    ensures
        text::views(r@) == pool_lines(pool@, flags@, now, on),
{
    let sep = style::dim("·", on);
    let mut heading = text::cat3("  ", style::bold(pool_label(pool), on).as_str(), "  ");
    heading.append(sep.as_str());
    heading.append("  ");
    heading.append(style::dim("default base", on).as_str());
    heading.append(" ");
    heading.append(style::secondary(pool.trunk.branch.as_str(), on).as_str());
    heading.append("  ");
    heading.append(sep.as_str());
    heading.append("  ");
    heading.append(
        make_freshness(
            &pool.last_refreshed_at,
            now,
            "never refreshed (`pool refresh`)",
            on,
        ).as_str(),
    );
    let ghost model = heading@;
    let mut out: Vec<String> = Vec::new();
    out.push("".to_string());
    out.push(heading);
    let ghost head = text::views(out@);
    assert(head =~= seq![""@, model]);
    if pool.branches.len() == 0 {
        out.push(text::cat("  ", style::dim("(empty pool)", on).as_str()));
        assert(text::views(out@) =~= pool_lines(pool@, flags@, now, on));
        return out;
    }
    let width: usize = find_widest(&pool.branches);
    let mut i: usize = 0;
    assert(text::views(out@) =~= head + rows(pool@, flags@, 0, on));
    while i < pool.branches.len()
        invariant
            i <= pool.branches.len(),
            flags@.len() == pool.branches@.len(),
            width == widest(pool@.branches),
            text::views(out@) == head + rows(pool@, flags@, i as int, on),
        decreases pool.branches.len() - i,
    {
        let ghost before = out@;
        let b = &pool.branches[i];
        assert(pool@.branches[i as int] == b@);
        let mut lines = make_branch_lines(
            b,
            b.effective_base_branch(pool),
            width,
            flags[i],
            on,
        );
        let ghost added = lines@;
        out.append(&mut lines);
        assert(text::views(out@) =~= text::views(before) + text::views(added));
        assert(text::views(out@) =~= head + rows(pool@, flags@, i + 1, on));
        i = i + 1;
    }
    out
}

/// The lines of the first `n` pools.
pub open spec fn all_pool_lines(
    pools: Seq<PoolView>,
    flags: Seq<Seq<bool>>,
    n: int,
    now: i128,
    on: bool,
) -> Seq<Seq<char>>
    decreases n,
{
    if n <= 0 {
        Seq::empty()
    } else {
        all_pool_lines(pools, flags, n - 1, now, on) + pool_lines(
            pools[n - 1],
            flags[n - 1],
            now,
            on,
        )
    }
}

/// The listing of every pool.
pub open spec fn list_text(file: PoolFileView, flags: Seq<Seq<bool>>, now: i128, on: bool) -> Seq<
    Seq<char>,
> {
    if file.pools.len() == 0 {
        seq!["  "@ + style::dim_of("no pools tracked for "@ + file.repository, on)]
    } else {
        seq![
            "  "@ + style::bold_of(file.repository, on) + "  "@ + style::dim_of("·"@, on) + "  "@
                + style::dim_of(
                text::decimal(file.pools.len()) + " pool"@ + if file.pools.len() == 1 {
                    ""@
                } else {
                    "s"@
                },
                on,
            ),
        ] + all_pool_lines(file.pools, flags, file.pools.len() as int, now, on)
    }
}

/// The listing of every pool. `flags` says which branches need a rebase, as
/// `survey` finds it; `now` is the current instant; `on` is colour.
pub fn emit_text(file: &PoolFile, flags: &Vec<Vec<bool>>, now: i128, on: bool) -> (r: Vec<String>)
    requires
        clock::in_range(now),
        flags@.len() == file.pools@.len(),
        forall|p: int|
            0 <= p < flags@.len() ==> (#[trigger] flags@[p])@.len()
                == file.pools@[p].branches@.len(),
    ensures
        text::views(r@) == list_text(file@, flag_views(flags@), now, on),
{
    let ghost pools = file@.pools;
    let ghost all = flag_views(flags@);
    let mut out: Vec<String> = Vec::new();
    assert(pools.len() == file.pools@.len());
    if file.pools.len() == 0 {
        let words = text::cat("no pools tracked for ", file.repository.as_str());
        out.push(text::cat("  ", style::dim(words.as_str(), on).as_str()));
        assert(text::views(out@) =~= list_text(file@, all, now, on));
        return out;
    }
    let n: usize = file.pools.len();
    let mut count = text::cat(text::to_decimal(n as u64).as_str(), " pool");
    if n == 1 {
        count.append("");
    } else {
        count.append("s");
    }
    let mut heading = text::cat3("  ", style::bold(file.repository.as_str(), on).as_str(), "  ");
    heading.append(style::dim("·", on).as_str());
    heading.append("  ");
    heading.append(style::dim(count.as_str(), on).as_str());
    let ghost model = heading@;
    out.push(heading);
    let ghost head = text::views(out@);
    assert(head =~= seq![model]);
    let mut p: usize = 0;
    assert(text::views(out@) =~= head + all_pool_lines(pools, all, 0, now, on));
    while p < n
        invariant
            p <= n,
            n == file.pools@.len(),
            clock::in_range(now),
            pools == pool_views(file.pools@),
            all == flag_views(flags@),
            flags@.len() == file.pools@.len(),
            forall|q: int|
                0 <= q < flags@.len() ==> (#[trigger] flags@[q])@.len()
                    == file.pools@[q].branches@.len(),
            text::views(out@) == head + all_pool_lines(pools, all, p as int, now, on),
        decreases n - p,
    {
        let ghost before = out@;
        assert(pools[p as int] == file.pools@[p as int]@);
        assert(all[p as int] == flags@[p as int]@);
        let mut lines = make_pool_lines(&file.pools[p], &flags[p], now, on);
        let ghost added = lines@;
        out.append(&mut lines);
        assert(text::views(out@) =~= text::views(before) + text::views(added));
        assert(text::views(out@) =~= head + all_pool_lines(pools, all, p + 1, now, on));
        p = p + 1;
    }
    out
}

/// What a pool is called in a listing.
pub fn pool_label(p: &Pool) -> (r: &str)
    ensures
        r@ == p@.label(),
{
    p.display_label()
}

/// The listing in a form fit for other programs.
#[derive(Debug)]
pub struct ListOutput {
    pub repository: String,
    pub pools: Vec<PoolOut>,
}

#[derive(Debug)]
pub struct PoolOut {
    pub name: Option<String>,
    pub trunk: String,
    pub last_refreshed_at: Option<String>,
    pub branches: Vec<BranchOut>,
}

#[derive(Debug)]
pub struct BranchOut {
    pub name: String,
    pub base: String,
    pub needs_rebase: bool,
    pub is_merged: bool,
    pub pr: Option<PrOut>,
}

#[derive(Debug)]
pub struct PrOut {
    pub number: u64,
    pub url: String,
    pub state: String,
    pub comment_count: u64,
    pub unread_comments: u64,
    pub mergeable: Option<bool>,
}

/// Whether this is what is listed of a pull request.
pub open spec fn pr_listed(o: PrOut, p: PoolPullRequestView) -> bool {
    &&& o.number == p.number
    &&& o.url@ == p.url
    &&& o.state@ == (if p.merged {
        "MERGED"@
    } else {
        "OPEN"@
    })
    &&& o.comment_count == p.comment_count
    &&& o.unread_comments == (if p.comment_count > p.seen_comment_count {
        p.comment_count - p.seen_comment_count
    } else {
        0
    })
    &&& o.mergeable == p.mergeable
}

/// Whether this is what is listed of a branch.
pub open spec fn branch_listed(
    o: BranchOut,
    b: PoolBranchView,
    base: Seq<char>,
    needs_rebase: bool,
) -> bool {
    &&& o.name@ == b.branch
    &&& o.base@ == base
    &&& o.needs_rebase == needs_rebase
    &&& o.is_merged == b.is_merged()
    &&& match b.pull_request {
        Some(p) => o.pr matches Some(q) && pr_listed(q, p),
        None => o.pr is None,
    }
}

/// Whether this is what is listed of a pool.
pub open spec fn pool_listed(o: PoolOut, pool: PoolView, flags: Seq<bool>) -> bool {
    &&& text::opt_view(o.name) == pool.name
    &&& o.trunk@ == pool.trunk.branch
    &&& text::opt_view(o.last_refreshed_at) == pool.last_refreshed_at
    &&& o.branches@.len() == pool.branches.len()
    &&& forall|i: int|
        0 <= i < pool.branches.len() ==> branch_listed(
            #[trigger] o.branches@[i],
            pool.branches[i],
            pool.branches[i].effective_base(pool.trunk.branch),
            flags[i],
        )
}

fn pr_out(p: &PoolPullRequest) -> (r: PrOut)
    ensures
        pr_listed(r, p@),
{
    PrOut {
        number: p.number,
        url: p.url.clone(),
        state: if p.merged {
            "MERGED".to_string()
        } else {
            "OPEN".to_string()
        },
        comment_count: p.comment_count,
        unread_comments: if p.comment_count > p.seen_comment_count {
            p.comment_count - p.seen_comment_count
        } else {
            0
        },
        mergeable: p.mergeable,
    }
}

fn pool_out(pool: &Pool, flags: &Vec<bool>) -> (r: PoolOut)
    requires
        flags@.len() == pool.branches@.len(),
    ensures
        pool_listed(r, pool@, flags@),
{
    let mut branches: Vec<BranchOut> = Vec::new();
    let mut i: usize = 0;
    while i < pool.branches.len()
        invariant
            i <= pool.branches.len(),
            flags@.len() == pool.branches@.len(),
            branches@.len() == i,
            forall|j: int|
                0 <= j < i ==> branch_listed(
                    #[trigger] branches@[j],
                    pool@.branches[j],
                    pool@.branches[j].effective_base(pool@.trunk.branch),
                    flags@[j],
                ),
        decreases pool.branches.len() - i,
    {
        let b = &pool.branches[i];
        assert(pool@.branches[i as int] == b@);
        branches.push(
            BranchOut {
                name: b.branch.clone(),
                base: b.effective_base_branch(pool).to_string(),
                needs_rebase: flags[i],
                is_merged: b.is_merged(),
                pr: match &b.pull_request {
                    Some(p) => Some(pr_out(p)),
                    None => None,
                },
            },
        );
        i = i + 1;
    }
    PoolOut {
        name: text::copy_opt(&pool.name),
        trunk: pool.trunk.branch.clone(),
        last_refreshed_at: text::copy_opt(&pool.last_refreshed_at),
        branches,
    }
}

/// The listing in a form fit for other programs. `flags` says which branches
/// need a rebase, as `survey` finds it.
pub fn list_output(file: &PoolFile, flags: &Vec<Vec<bool>>) -> (r: ListOutput)
    requires
        flags@.len() == file.pools@.len(),
        forall|p: int|
            0 <= p < flags@.len() ==> (#[trigger] flags@[p])@.len()
                == file.pools@[p].branches@.len(),
    ensures
        r.repository@ == file@.repository,
        r.pools@.len() == file@.pools.len(),
        forall|p: int|
            0 <= p < r.pools@.len() ==> pool_listed(
                #[trigger] r.pools@[p],
                file@.pools[p],
                flag_views(flags@)[p],
            ),
{
    let mut pools: Vec<PoolOut> = Vec::new();
    let mut p: usize = 0;
    while p < file.pools.len()
        invariant
            p <= file.pools.len(),
            pools@.len() == p,
            flags@.len() == file.pools@.len(),
            forall|q: int|
                0 <= q < flags@.len() ==> (#[trigger] flags@[q])@.len()
                    == file.pools@[q].branches@.len(),
            forall|q: int|
                0 <= q < p ==> pool_listed(
                    #[trigger] pools@[q],
                    file@.pools[q],
                    flag_views(flags@)[q],
                ),
        decreases file.pools.len() - p,
    {
        assert(file@.pools[p as int] == file.pools@[p as int]@);
        assert(flag_views(flags@)[p as int] == flags@[p as int]@);
        pools.push(pool_out(&file.pools[p], &flags[p]));
        p = p + 1;
    }
    ListOutput { repository: file.repository.clone(), pools }
}

/// The places of `n` pools, from the first on.
pub open spec fn every_pool(n: nat) -> Seq<usize> {
    Seq::new(n, |i: int| i as usize)
}

/// Whether `runs` bring every pool up to date, turn one file into the other and
/// come to `r`. Merged branches stay where they are.
pub open spec fn renews(
    runs: Seq<Seq<BranchTalk>>,
    before: PoolFileView,
    now: Seq<char>,
    after: PoolFileView,
    r: Result<(), StackError>,
) -> bool {
    refreshes_targets(runs, before, every_pool(before.pools.len()), now, after, r)
}

/// Refresh every pool before it is listed. Nothing is dropped: that is left to
/// `pool prune`.
pub fn renew<H: GitHub>(gh: &mut H, file: &mut PoolFile, now: &str) -> (r: Result<(), StackError>)
    ensures
        exists|runs: Seq<Seq<BranchTalk>>|
            #[trigger] renews(runs, old(file)@, now@, final(file)@, r) && final(gh).history()
                == old(gh).history() + run_events(runs),
{
    let ghost before = file@;
    let ghost asked = gh.history();
    let list = match targets(file, None) {
        Ok(list) => list,
        Err(e) => {
            assert(false);
            return Err(e);
        },
    };
    assert(list@ =~= every_pool(before.pools.len()));
    assert forall|k: int| 0 <= k < list@.len() implies #[trigger] list@[k]
        < file.pools@.len() by {}
    let outcome = refresh_targets(gh, file, &list, now);
    let ghost runs = choose|runs: Seq<Seq<BranchTalk>>|
        #[trigger] refreshes_targets(runs, before, list@, now@, file@, outcome) && gh.history()
            == asked + run_events(runs);
    assert(renews(runs, before, now@, file@, outcome));
    outcome
}

/// Refreshing makes and loses no pool, and no branch of any.
proof fn lemma_refreshed_names(
    before: PoolFileView,
    targets: Seq<usize>,
    runs: Seq<Seq<BranchTalk>>,
    now: Seq<char>,
)
    requires
        runs.len() <= targets.len(),
        forall|k: int| 0 <= k < targets.len() ==> #[trigger] targets[k] < before.pools.len(),
    ensures
        ({
            let after = refreshed(before, targets, runs, now);
            &&& after.pools.len() == before.pools.len()
            &&& forall|p: int|
                0 <= p < before.pools.len() ==> names_of((#[trigger] after.pools[p]).branches)
                    == names_of(before.pools[p].branches)
        }),
    decreases runs.len(),
{
    if runs.len() > 0 {
        let rest = runs.drop_last();
        lemma_refreshed_names(before, targets, rest, now);
        let mid = refreshed(before, targets, rest, now);
        let after = refreshed(before, targets, runs, now);
        assert(targets[runs.len() - 1] < before.pools.len());
        assert forall|p: int| 0 <= p < before.pools.len() implies names_of(
            (#[trigger] after.pools[p]).branches,
        ) == names_of(before.pools[p].branches) by {
            assert(names_of(mid.pools[p].branches) == names_of(before.pools[p].branches));
            assert(names_of(after.pools[p].branches) =~= names_of(mid.pools[p].branches));
        }
    }
}

/// Refreshing before a listing drops no branch from any pool, merged or not.
pub proof fn law_renewal_keeps_branches(
    runs: Seq<Seq<BranchTalk>>,
    before: PoolFileView,
    now: Seq<char>,
    after: PoolFileView,
    r: Result<(), StackError>,
)
    requires
        before.pools.len() <= usize::MAX,
        renews(runs, before, now, after, r),
    ensures
        after.pools.len() == before.pools.len(),
        forall|p: int|
            0 <= p < before.pools.len() ==> names_of((#[trigger] after.pools[p]).branches)
                == names_of(before.pools[p].branches),
{
    lemma_refreshed_names(before, every_pool(before.pools.len()), runs, now);
}

/// The pools once the user has looked at them.
pub open spec fn looked_at(pools: Seq<PoolView>) -> Seq<PoolView> {
    pools.map_values(|p: PoolView| PoolView { branches: all_seen(p.branches), ..p })
}

/// Take every comment in every pool as seen.
pub fn look(file: &mut PoolFile)
    ensures
        final(file)@ == (PoolFileView { pools: looked_at(old(file)@.pools), ..old(file)@ }),
{
    let ghost before = file@;
    let ghost target = looked_at(before.pools);
    let n: usize = file.pools.len();
    let mut i: usize = 0;
    assert(before.pools =~= target.take(0) + before.pools.skip(0));
    while i < n
        invariant
            i <= n,
            n == file.pools@.len(),
            n == before.pools.len(),
            target == looked_at(before.pools),
            file@ == (PoolFileView {
                pools: target.take(i as int) + before.pools.skip(i as int),
                ..before
            }),
        decreases n - i,
    {
        let ghost mid = file@;
        assert(mid.pools.len() == n);
        assert(mid.pools[i as int] == before.pools[i as int]);
        mark_seen(file, i);
        proof {
            assert(file@.pools.len() == file.pools@.len());
            assert(file@.pools =~= mid.pools.update(i as int, target[i as int]));
            assert(file@.pools =~= target.take(i + 1) + before.pools.skip(i + 1));
        }
        i = i + 1;
    }
    assert(file@.pools =~= target);
}

/// After a look nothing is unread, and a second look changes nothing.
pub proof fn law_look_clears_unread(pools: Seq<PoolView>)
    ensures
        forall|p: int, i: int|
            #![trigger looked_at(pools)[p].branches[i]]
            0 <= p < pools.len() && 0 <= i < pools[p].branches.len() ==> looked_at(
                pools,
            )[p].branches[i].unread() == 0,
        looked_at(looked_at(pools)) == looked_at(pools),
{
    let once = looked_at(pools);
    let twice = looked_at(once);
    assert forall|p: int| 0 <= p < pools.len() implies #[trigger] twice[p] == once[p] by {
        assert(all_seen(all_seen(pools[p].branches)) =~= all_seen(pools[p].branches));
    }
    assert(twice =~= once);
}

/// A survey flags a branch exactly where it is not merged and git gives another
/// commit for its base, the one it names or else the pool's trunk, than the one
/// it was last based on.
pub proof fn law_survey_flags_what_lags(
    talks: Seq<Seq<GitEvent>>,
    pools: Seq<PoolView>,
    flags: Seq<Seq<bool>>,
    p: int,
    i: int,
)
    requires
        surveys(talks, pools, flags),
        0 <= p < pools.len(),
        0 <= i < pools[p].branches.len(),
    ensures
        flags[p].len() == pools[p].branches.len(),
        talks[p].len() == pools[p].branches.len(),
        talks[p][i] matches GitEvent::RevParse { rev, reply } && {
            let b = pools[p].branches[i];
            &&& rev == (if b.base_branch.len() > 0 {
                b.base_branch
            } else {
                pools[p].trunk.branch
            })
            &&& flags[p][i] <==> (reply matches Ok(live) && live@ != b.base) && !(
            b.pull_request matches Some(q) && q.merged)
        },
{
    assert(asks_bases(pools[p], talks[p]));
    assert(flags[p] == lags(pools[p], talks[p]));
    assert(talks[p][i] is RevParse);
}

/// What is listed of a pool for other programs is what is recorded of it: every
/// branch with its base, whether it needs a rebase and is merged, and its pull
/// request with the comments that are unread.
pub proof fn law_listing_tells_record(o: PoolOut, pool: PoolView, flags: Seq<bool>, i: int)
    requires
        pool_listed(o, pool, flags),
        0 <= i < pool.branches.len(),
    ensures
        text::opt_view(o.name) == pool.name,
        o.trunk@ == pool.trunk.branch,
        text::opt_view(o.last_refreshed_at) == pool.last_refreshed_at,
        o.branches@.len() == pool.branches.len(),
        ({
            let b = pool.branches[i];
            let x = o.branches@[i];
            &&& x.name@ == b.branch
            &&& b.base_branch.len() > 0 ==> x.base@ == b.base_branch
            &&& b.base_branch.len() == 0 ==> x.base@ == pool.trunk.branch
            &&& x.needs_rebase == flags[i]
            &&& x.is_merged <==> (b.pull_request matches Some(p) && p.merged)
            &&& x.pr is Some <==> b.pull_request is Some
            &&& x.pr matches Some(q) ==> (b.pull_request matches Some(p) && {
                &&& q.number == p.number && q.url@ == p.url && q.comment_count == p.comment_count
                    && q.mergeable == p.mergeable
                &&& p.merged ==> q.state@ == "MERGED"@
                &&& !p.merged ==> q.state@ == "OPEN"@
                &&& q.unread_comments > 0 ==> q.unread_comments + p.seen_comment_count
                    == p.comment_count
                &&& q.unread_comments == 0 ==> p.comment_count <= p.seen_comment_count
            })
        }),
{
    assert(branch_listed(
        o.branches@[i],
        pool.branches[i],
        pool.branches[i].effective_base(pool.trunk.branch),
        flags[i],
    ));
}

/// Looking at the pools takes every comment that there is as seen and changes
/// nothing else.
pub proof fn law_look_only_sees(pools: Seq<PoolView>, p: int, i: int)
    requires
        0 <= p < pools.len(),
        0 <= i < pools[p].branches.len(),
    ensures
        looked_at(pools).len() == pools.len(),
        looked_at(pools)[p].branches.len() == pools[p].branches.len(),
        looked_at(pools)[p].name == pools[p].name,
        looked_at(pools)[p].trunk == pools[p].trunk,
        looked_at(pools)[p].last_refreshed_at == pools[p].last_refreshed_at,
        ({
            let was = pools[p].branches[i];
            let is = looked_at(pools)[p].branches[i];
            &&& is.branch == was.branch && is.head == was.head && is.base_branch == was.base_branch
                && is.base == was.base
            &&& is.pull_request is Some <==> was.pull_request is Some
            &&& was.pull_request matches Some(q) ==> (is.pull_request matches Some(s)
                && s.seen_comment_count == q.comment_count && s.comment_count == q.comment_count
                && s.number == q.number && s.id == q.id && s.url == q.url && s.merged == q.merged
                && s.mergeable == q.mergeable)
        }),
{
}

proof fn lemma_stamped(
    before: PoolFileView,
    targets: Seq<usize>,
    runs: Seq<Seq<BranchTalk>>,
    now: Seq<char>,
)
    requires
        runs.len() <= targets.len(),
        forall|k: int| 0 <= k < targets.len() ==> #[trigger] targets[k] == k && k
            < before.pools.len(),
        crate::ops::pool::prune::runs_follow(before, targets, runs, now),
        crate::ops::pool::prune::run_fault(before, targets, runs, now) is None,
    ensures
        ({
            let after = refreshed(before, targets, runs, now);
            &&& after.pools.len() == before.pools.len()
            &&& forall|p: int|
                0 <= p < runs.len() ==> (#[trigger] after.pools[p]).last_refreshed_at == Some(now)
            &&& forall|p: int|
                runs.len() <= p < before.pools.len() ==> #[trigger] after.pools[p]
                    == before.pools[p]
        }),
    decreases runs.len(),
{
    if runs.len() > 0 {
        lemma_stamped(before, targets, runs.drop_last(), now);
        assert(targets[runs.len() - 1] == runs.len() - 1);
    }
}

/// Bringing the pools up to date, where it goes through, records the time for
/// every one of them.
pub proof fn law_renewal_stamps_every_pool(
    runs: Seq<Seq<BranchTalk>>,
    before: PoolFileView,
    now: Seq<char>,
    after: PoolFileView,
    r: Result<(), StackError>,
)
    requires
        before.pools.len() <= usize::MAX,
        renews(runs, before, now, after, r),
        r is Ok,
    ensures
        forall|p: int|
            0 <= p < before.pools.len() ==> (#[trigger] after.pools[p]).last_refreshed_at == Some(
                now,
            ),
{
    lemma_stamped(before, every_pool(before.pools.len()), runs, now);
}

/// What a row has to say of a branch: the mark of a merged one or of an open one;
/// its base; its pull request and state, or that it has none; that it needs a
/// rebase; that it conflicts; and how many comments are unread.
pub open spec fn owed(b: PoolBranchView, base: Seq<char>, needs_rebase: bool) -> Seq<Seq<char>> {
    (match b.pull_request {
        Some(p) => seq![
            base,
            if p.merged {
                "✓"@
            } else {
                "○"@
            },
            "#"@ + text::decimal(p.number as nat),
            if p.merged {
                "merged"@
            } else {
                "open"@
            },
        ],
        None => seq![base, "○"@, "(no PR)"@],
    }) + (if needs_rebase {
        seq!["needs rebase"@]
    } else {
        Seq::empty()
    }) + (if b.pull_request matches Some(p) && p.mergeable == Some(false) {
        seq!["conflicts"@]
    } else {
        Seq::empty()
    }) + (if b.pull_request matches Some(p) && p.comment_count > p.seen_comment_count {
        seq![
            text::decimal(
                (b.pull_request->0.comment_count - b.pull_request->0.seen_comment_count) as nat,
            ) + " new comment"@,
        ]
    } else {
        Seq::empty()
    })
}

proof fn lemma_pr_part(pr: Option<PoolPullRequestView>, on: bool)
    ensures
        pr matches Some(p) ==> text::has_part(
            pr_part(pr, on),
            "#"@ + text::decimal(p.number as nat),
        ) && text::has_part(
            pr_part(pr, on),
            if p.merged {
                "merged"@
            } else {
                "open"@
            },
        ),
        pr is None ==> text::has_part(pr_part(pr, on), "(no PR)"@),
{
    style::law_styled_holds_text("(no PR)"@, "38;5;244"@, on);
    style::law_styled_holds_text("open"@, "38;5;108"@, on);
    style::law_styled_holds_text("merged"@, "38;5;246"@, on);
    if let Some(p) = pr {
        let number = "#"@ + text::decimal(p.number as nat);
        let first = style::secondary_of(number, on);
        let word = if p.merged {
            style::merged_of("merged"@, on)
        } else {
            style::ok_of("open"@, on)
        };
        style::law_styled_holds_text(number, "38;5;250"@, on);
        text::lemma_part_left(first, "  "@, number);
        text::lemma_part_left(first + "  "@, word, number);
        text::lemma_part_right(
            first + "  "@,
            word,
            if p.merged {
                "merged"@
            } else {
                "open"@
            },
        );
    }
}

#[verifier::rlimit(40)]
proof fn lemma_tags(b: PoolBranchView, needs_rebase: bool, on: bool)
    ensures
        needs_rebase ==> text::has_part(tags(b, needs_rebase, on), "needs rebase"@),
        b.pull_request matches Some(p) ==> {
            &&& p.mergeable == Some(false) ==> text::has_part(
                tags(b, needs_rebase, on),
                "conflicts"@,
            )
            &&& p.comment_count > p.seen_comment_count ==> text::has_part(
                tags(b, needs_rebase, on),
                text::decimal((p.comment_count - p.seen_comment_count) as nat) + " new comment"@,
            )
        },
{
    let warn = style::warn_of("needs rebase"@, on);
    let lead = "  "@ + style::warn_of("▲"@, on) + " "@;
    let rebase = if needs_rebase {
        lead + warn
    } else {
        ""@
    };
    let clash = style::warn_of("conflicts"@, on);
    let sign = "  "@ + style::warn_of("⚠"@, on) + " "@;
    let conflict = if b.pull_request matches Some(p) && p.mergeable == Some(false) {
        sign + clash
    } else {
        ""@
    };
    let few = text::decimal(b.unread() as nat) + " new comment"@;
    let many = few + if b.unread() == 1 {
        ""@
    } else {
        "s"@
    };
    let note = style::accent_of(many, on);
    let letter = "  "@ + style::accent_of("✉"@, on) + " "@;
    let unread = if b.unread() > 0 {
        letter + note
    } else {
        ""@
    };
    assert(tags(b, needs_rebase, on) == rebase + conflict + unread);
    if needs_rebase {
        style::law_styled_holds_text("needs rebase"@, "38;5;215"@, on);
        text::lemma_part_right(lead, warn, "needs rebase"@);
        text::lemma_part_left(rebase, conflict, "needs rebase"@);
        text::lemma_part_left(rebase + conflict, unread, "needs rebase"@);
    }
    if let Some(p) = b.pull_request {
        if p.mergeable == Some(false) {
            style::law_styled_holds_text("conflicts"@, "38;5;215"@, on);
            text::lemma_part_right(sign, clash, "conflicts"@);
            text::lemma_part_right(rebase, conflict, "conflicts"@);
            text::lemma_part_left(rebase + conflict, unread, "conflicts"@);
        }
        if p.comment_count > p.seen_comment_count {
            assert(b.unread() == p.comment_count - p.seen_comment_count);
            let end = if b.unread() == 1 {
                ""@
            } else {
                "s"@
            };
            text::lemma_part_whole(few);
            text::lemma_part_left(few, end, few);
            style::law_styled_holds_text(many, "1;38;5;81"@, on);
            if on {
                text::lemma_part_within("\x1b["@ + "1;38;5;81"@ + "m"@, many, "\x1b[0m"@, few);
            }
            text::lemma_part_right(letter, note, few);
            text::lemma_part_right(rebase + conflict, unread, few);
        }
    }
}

/// The lines of a branch tell its name, what it sits on, its pull request and
/// every warning there is; the address of the pull request comes below.
#[verifier::rlimit(40)]
pub proof fn law_row_tells_branch(
    b: PoolBranchView,
    base: Seq<char>,
    width: usize,
    needs_rebase: bool,
    on: bool,
)
    ensures
        ({
            let lines = branch_lines(b, base, width, needs_rebase, on);
            &&& lines.len() > 0
            &&& row_for(lines[0], b.branch, owed(b, base, needs_rebase))
            &&& b.pull_request matches Some(p) ==> lines.len() == 2 && text::has_part(
                lines[1],
                p.url,
            )
        }),
{
    let mark = if b.is_merged() {
        "✓"@
    } else {
        "○"@
    };
    let marker = if b.is_merged() {
        style::merged_of("✓"@, on)
    } else {
        style::dim_of("○"@, on)
    };
    let name = if b.is_merged() {
        style::merged_of(b.branch, on)
    } else {
        b.branch
    };
    let pad = text::padding(b.branch, width);
    let arrow = style::dim_of("→"@, on);
    let target = style::secondary_of(base, on);
    let pr = pr_part(b.pull_request, on);
    let warnings = tags(b, needs_rebase, on);
    let lines = branch_lines(b, base, width, needs_rebase, on);
    let start = "  "@ + marker + "  "@ + name + pad + "    "@ + arrow;
    let line = start + " "@ + target + "    "@ + pr + warnings;
    assert(lines[0] == line);
    style::law_styled_holds_text("✓"@, "38;5;246"@, on);
    style::law_styled_holds_text("○"@, "38;5;244"@, on);
    style::law_styled_holds_text(b.branch, "38;5;246"@, on);
    style::law_styled_holds_text(base, "38;5;250"@, on);
    text::lemma_part_whole(b.branch);
    lemma_pr_part(b.pull_request, on);
    lemma_tags(b, needs_rebase, on);
    text::lemma_row_parts("  "@, marker, "  "@, name, pad, "    "@, arrow);
    assert forall|part: Seq<char>| #[trigger] text::has_part(start, part) implies text::has_part(
        line,
        part,
    ) by {
        text::lemma_part_left(start, " "@, part);
        text::lemma_part_left(start + " "@, target, part);
        text::lemma_part_left(start + " "@ + target, "    "@, part);
        text::lemma_part_left(start + " "@ + target + "    "@, pr, part);
        text::lemma_part_left(start + " "@ + target + "    "@ + pr, warnings, part);
    }
    assert forall|part: Seq<char>| #[trigger] text::has_part(target, part) implies text::has_part(
        line,
        part,
    ) by {
        text::lemma_part_right(start + " "@, target, part);
        text::lemma_part_left(start + " "@ + target, "    "@, part);
        text::lemma_part_left(start + " "@ + target + "    "@, pr, part);
        text::lemma_part_left(start + " "@ + target + "    "@ + pr, warnings, part);
    }
    assert forall|part: Seq<char>| #[trigger] text::has_part(pr, part) implies text::has_part(
        line,
        part,
    ) by {
        text::lemma_part_right(start + " "@ + target + "    "@, pr, part);
        text::lemma_part_left(start + " "@ + target + "    "@ + pr, warnings, part);
    }
    assert forall|part: Seq<char>| #[trigger]
        text::has_part(warnings, part) implies text::has_part(line, part) by {
        text::lemma_part_right(start + " "@ + target + "    "@ + pr, warnings, part);
    }
    assert(text::has_part(start, mark));
    assert(text::has_part(start, b.branch));
    assert(text::has_part(target, base));
    if let Some(p) = b.pull_request {
        style::law_styled_holds_text(p.url, "4;38;5;250"@, on);
        text::lemma_part_right(
            "  "@ + style::dim_of("│"@, on) + "     "@,
            style::url_of(p.url, on),
            p.url,
        );
    }
    let parts = owed(b, base, needs_rebase);
    assert forall|k: int| 0 <= k < parts.len() implies text::has_part(line, #[trigger] parts[k]) by {
        let n: int = if b.pull_request is Some {
            4
        } else {
            3
        };
        if 1 < k < n {
            assert(text::has_part(pr, parts[k]));
        } else if k >= n {
            assert(text::has_part(warnings, parts[k]));
        }
    }
}

proof fn lemma_rows(pool: PoolView, flags: Seq<bool>, n: int, on: bool, i: int) -> (l: int)
    requires
        0 <= i < n <= pool.branches.len(),
    ensures
        ({
            let b = pool.branches[i];
            let base = if b.base_branch.len() > 0 {
                b.base_branch
            } else {
                pool.trunk.branch
            };
            let lines = rows(pool, flags, n, on);
            &&& 0 <= l < lines.len()
            &&& row_for(lines[l], b.branch, owed(b, base, flags[i]))
            &&& b.pull_request matches Some(p) ==> l + 1 < lines.len() && text::has_part(
                lines[l + 1],
                p.url,
            )
        }),
    decreases n,
{
    let top = pool.branches[n - 1];
    let below = rows(pool, flags, n - 1, on);
    let own = branch_lines(
        top,
        top.effective_base(pool.trunk.branch),
        widest(pool.branches),
        flags[n - 1],
        on,
    );
    let lines = rows(pool, flags, n, on);
    assert(lines =~= below + own);
    if i == n - 1 {
        law_row_tells_branch(
            top,
            top.effective_base(pool.trunk.branch),
            widest(pool.branches),
            flags[n - 1],
            on,
        );
        let l = below.len() as int;
        assert(lines[l] == own[0]);
        if top.pull_request is Some {
            assert(lines[l + 1] == own[1]);
        }
        l
    } else {
        let l = lemma_rows(pool, flags, n - 1, on, i);
        assert(lines[l] == below[l]);
        if pool.branches[i].pull_request is Some {
            assert(lines[l + 1] == below[l + 1]);
        }
        l
    }
}

/// The listing tells every branch of every pool on a line of its own, with what it
/// sits on, its pull request and every warning; the address of the pull request
/// comes below.
pub proof fn law_list_tells_every_branch(
    file: PoolFileView,
    flags: Seq<Seq<bool>>,
    now: i128,
    on: bool,
    p: int,
    i: int,
) -> (l: int)
    requires
        0 <= p < file.pools.len(),
        0 <= i < file.pools[p].branches.len(),
    ensures
        ({
            let b = file.pools[p].branches[i];
            let base = if b.base_branch.len() > 0 {
                b.base_branch
            } else {
                file.pools[p].trunk.branch
            };
            let lines = list_text(file, flags, now, on);
            &&& 0 < l < lines.len()
            &&& row_for(lines[l], b.branch, owed(b, base, flags[p][i]))
            &&& b.pull_request matches Some(q) ==> l + 1 < lines.len() && text::has_part(
                lines[l + 1],
                q.url,
            )
        }),
{
    let all = all_pool_lines(file.pools, flags, file.pools.len() as int, now, on);
    let lines = list_text(file, flags, now, on);
    let l = lemma_pool_lines(file.pools, flags, file.pools.len() as int, now, on, p, i);
    assert(lines[l + 1] == all[l]);
    if file.pools[p].branches[i].pull_request is Some {
        assert(lines[l + 2] == all[l + 1]);
    }
    l + 1
}

proof fn lemma_pool_lines(
    pools: Seq<PoolView>,
    flags: Seq<Seq<bool>>,
    n: int,
    now: i128,
    on: bool,
    p: int,
    i: int,
) -> (l: int)
    requires
        0 <= p < n <= pools.len(),
        0 <= i < pools[p].branches.len(),
    ensures
        ({
            let b = pools[p].branches[i];
            let base = if b.base_branch.len() > 0 {
                b.base_branch
            } else {
                pools[p].trunk.branch
            };
            let lines = all_pool_lines(pools, flags, n, now, on);
            &&& 0 <= l < lines.len()
            &&& row_for(lines[l], b.branch, owed(b, base, flags[p][i]))
            &&& b.pull_request matches Some(q) ==> l + 1 < lines.len() && text::has_part(
                lines[l + 1],
                q.url,
            )
        }),
    decreases n,
{
    let below = all_pool_lines(pools, flags, n - 1, now, on);
    let own = pool_lines(pools[n - 1], flags[n - 1], now, on);
    let lines = all_pool_lines(pools, flags, n, now, on);
    assert(lines =~= below + own);
    if p == n - 1 {
        let pool = pools[p];
        let m = pool.branches.len() as int;
        let list = rows(pool, flags[p], m, on);
        let k = lemma_rows(pool, flags[p], m, on, i);
        assert(own[2 + k] == list[k]);
        let l = below.len() + 2 + k;
        assert(lines[l] == own[2 + k]);
        if pool.branches[i].pull_request is Some {
            assert(own[3 + k] == list[k + 1]);
            assert(lines[l + 1] == own[3 + k]);
        }
        l
    } else {
        let l = lemma_pool_lines(pools, flags, n - 1, now, on, p, i);
        assert(lines[l] == below[l]);
        if pools[p].branches[i].pull_request is Some {
            assert(lines[l + 1] == below[l + 1]);
        }
        l
    }
}

/// No branch name is wider than the widest.
pub proof fn law_widest_is_widest(branches: Seq<PoolBranchView>)
    ensures
        forall|i: int|
            0 <= i < branches.len() ==> text::width((#[trigger] branches[i]).branch) <= widest(
                branches,
            ),
    decreases branches.len(),
{
    if branches.len() > 0 {
        let rest = branches.drop_last();
        law_widest_is_widest(rest);
        assert forall|i: int| 0 <= i < branches.len() implies text::width(
            (#[trigger] branches[i]).branch,
        ) <= widest(branches) by {
            if i < rest.len() {
                assert(rest[i] == branches[i]);
            }
        }
    }
}

/// Data that was fetched is told with its age, and data that never was with the
/// words for that.
pub proof fn law_freshness_is_told(
    stamp: Option<Seq<char>>,
    now: i128,
    never: Seq<char>,
    on: bool,
)
    ensures
        stamp matches Some(ts) ==> text::has_part(
            freshness(stamp, now, never, on),
            "refreshed "@ + clock::age_of(ts, now),
        ),
        stamp is None ==> text::has_part(freshness(stamp, now, never, on), never),
{
    if let Some(ts) = stamp {
        style::law_styled_holds_text("refreshed "@ + clock::age_of(ts, now), "38;5;244"@, on);
    }
    style::law_styled_holds_text(never, "38;5;244"@, on);
}

} // verus!
