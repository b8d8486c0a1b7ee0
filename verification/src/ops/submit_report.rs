//! What a submission tells the user, for stacks and for pools.

use vstd::prelude::*;

use crate::domain::pool::{Pool, PoolBranchView, PoolView};
use crate::domain::stack::{
    item_views, ActionView, BranchView, ItemView, Stack, StackView, SubmitAction, SubmitPlanItem,
};
use crate::ops::submit::{ReportView, SubmitReport};
use crate::seqs;
use crate::style;
use crate::text;

verus! {

/// The number and address of a pull request.
#[derive(Debug)]
pub struct Link {
    pub number: u64,
    pub url: String,
}

#[verifier::ext_equal]
pub struct LinkView {
    pub number: u64,
    pub url: Seq<char>,
}

/// The model of an optional link.
pub open spec fn link_view(link: Option<Link>) -> Option<LinkView> {
    match link {
        Some(l) => Some(LinkView { number: l.number, url: l.url@ }),
        None => None,
    }
}

/// The models of a list of optional links.
pub open spec fn link_views(list: Seq<Option<Link>>) -> Seq<Option<LinkView>> {
    list.map_values(|l: Option<Link>| link_view(l))
}

/// The pull requests of a stack's branches.
pub open spec fn stack_links(stack: StackView) -> Seq<Option<LinkView>> {
    stack.branches.map_values(
        |b: BranchView|
            match b.pull_request {
                Some(p) => Some(LinkView { number: p.number, url: p.url }),
                None => None,
            },
    )
}

/// The pull requests of a pool's branches.
pub open spec fn pool_links(pool: PoolView) -> Seq<Option<LinkView>> {
    pool.branches.map_values(
        |b: PoolBranchView|
            match b.pull_request {
                Some(p) => Some(LinkView { number: p.number, url: p.url }),
                None => None,
            },
    )
}

fn find_stack_links(stack: &Stack) -> (r: Vec<Option<Link>>)
    ensures
        link_views(r@) == stack_links(stack@),
        r@.len() == stack.branches@.len(),
{
    let ghost target = stack_links(stack@);
    let mut out: Vec<Option<Link>> = Vec::new();
    let mut i: usize = 0;
    assert(link_views(out@) =~= target.take(0));
    while i < stack.branches.len()
        invariant
            i <= stack.branches@.len(),
            out@.len() == i,
            target == stack_links(stack@),
            link_views(out@) == target.take(i as int),
        decreases stack.branches.len() - i,
    {
        let ghost before = link_views(out@);
        assert(stack@.branches[i as int] == stack.branches@[i as int]@);
        let link = match &stack.branches[i].pull_request {
            Some(p) => Some(Link { number: p.number, url: p.url.clone() }),
            None => None,
        };
        let ghost model = link_view(link);
        out.push(link);
        assert(link_views(out@) =~= before.push(model));
        assert(link_views(out@) =~= target.take(i + 1));
        i = i + 1;
    }
    assert(link_views(out@) =~= target);
    out
}

fn find_pool_links(pool: &Pool) -> (r: Vec<Option<Link>>)
    ensures
        link_views(r@) == pool_links(pool@),
        r@.len() == pool.branches@.len(),
{
    let ghost target = pool_links(pool@);
    let mut out: Vec<Option<Link>> = Vec::new();
    let mut i: usize = 0;
    assert(link_views(out@) =~= target.take(0));
    while i < pool.branches.len()
        invariant
            i <= pool.branches@.len(),
            out@.len() == i,
            target == pool_links(pool@),
            link_views(out@) == target.take(i as int),
        decreases pool.branches.len() - i,
    {
        let ghost before = link_views(out@);
        assert(pool@.branches[i as int] == pool.branches@[i as int]@);
        let link = match &pool.branches[i].pull_request {
            Some(p) => Some(Link { number: p.number, url: p.url.clone() }),
            None => None,
        };
        let ghost model = link_view(link);
        out.push(link);
        assert(link_views(out@) =~= before.push(model));
        assert(link_views(out@) =~= target.take(i + 1));
        i = i + 1;
    }
    assert(link_views(out@) =~= target);
    out
}

/// What is told of one step: that a branch without commits was passed over, or
/// the pull request that was opened or brought up to date.
pub open spec fn step_text(
    item: ItemView,
    link: Option<LinkView>,
    why_empty: Seq<char>,
    on: bool,
) -> Seq<Seq<char>> {
    match item.action {
        ActionView::SkipMerged => Seq::empty(),
        ActionView::SkipEmpty => seq!["ℹ skipping "@ + item.branch + why_empty],
        ActionView::RefreshExisting { number } => match link {
            Some(l) => seq![
                "ℹ PR #"@ + text::decimal(number as nat) + " for "@ + item.branch
                    + " refreshed"@,
                "    "@ + style::url_of(l.url, on),
            ],
            None => Seq::empty(),
        },
        ActionView::Create { .. } => match link {
            Some(l) => seq![
                "✓ created PR #"@ + text::decimal(l.number as nat) + " for "@ + item.branch,
                "    "@ + style::url_of(l.url, on),
            ],
            None => Seq::empty(),
        },
    }
}

fn push_step(
    item: &SubmitPlanItem,
    link: &Option<Link>,
    why_empty: &str,
    on: bool,
    out: &mut Vec<String>,
)
    ensures
        text::views(final(out)@) == text::views(old(out)@) + step_text(
            item@,
            link_view(*link),
            why_empty@,
            on,
        ),
{
    let ghost start = text::views(out@);
    match &item.action {
        SubmitAction::SkipMerged => {},
        SubmitAction::SkipEmpty => {
            let line = text::cat3("ℹ skipping ", item.branch.as_str(), why_empty);
            let ghost model = line@;
            out.push(line);
            assert(text::views(out@) =~= start.push(model));
        },
        SubmitAction::RefreshExisting { number } => {
            if let Some(l) = link {
                let mut line = text::cat3("ℹ PR #", text::to_decimal(*number).as_str(), " for ");
                line.append(item.branch.as_str());
                line.append(" refreshed");
                let ghost first = line@;
                let address = text::cat("    ", style::url_err(l.url.as_str(), on).as_str());
                let ghost second = address@;
                out.push(line);
                out.push(address);
                assert(text::views(out@) =~= start.push(first).push(second));
            }
        },
        SubmitAction::Create { .. } => {
            if let Some(l) = link {
                let mut line = text::cat3(
                    "✓ created PR #",
                    text::to_decimal(l.number).as_str(),
                    " for ",
                );
                line.append(item.branch.as_str());
                let ghost first = line@;
                let address = text::cat("    ", style::url_err(l.url.as_str(), on).as_str());
                let ghost second = address@;
                out.push(line);
                out.push(address);
                assert(text::views(out@) =~= start.push(first).push(second));
            }
        },
    }
    assert(text::views(out@) =~= start + step_text(item@, link_view(*link), why_empty@, on));
}

/// What is told of each step of a plan.
pub open spec fn steps(
    plan: Seq<ItemView>,
    links: Seq<Option<LinkView>>,
    why_empty: Seq<char>,
    on: bool,
) -> Seq<Seq<Seq<char>>> {
    plan.map_values(
        |item: ItemView|
            step_text(
                item,
                if 0 <= item.branch_index < links.len() {
                    links[item.branch_index]
                } else {
                    None
                },
                why_empty,
                on,
            ),
    )
}

fn push_steps(
    plan: &Vec<SubmitPlanItem>,
    links: &Vec<Option<Link>>,
    why_empty: &str,
    on: bool,
    out: &mut Vec<String>,
)
    ensures
        text::views(final(out)@) == text::views(old(out)@) + seqs::joined(
            steps(item_views(plan@), link_views(links@), why_empty@, on),
        ),
{
    let ghost start = text::views(out@);
    let ghost lv = link_views(links@);
    let ghost all = steps(item_views(plan@), lv, why_empty@, on);
    let mut i: usize = 0;
    assert(all.take(0) =~= Seq::<Seq<Seq<char>>>::empty());
    assert(text::views(out@) =~= start + seqs::joined(all.take(0)));
    while i < plan.len()
        invariant
            i <= plan@.len(),
            lv == link_views(links@),
            all == steps(item_views(plan@), lv, why_empty@, on),
            all.len() == plan@.len(),
            text::views(out@) == start + seqs::joined(all.take(i as int)),
        decreases plan.len() - i,
    {
        let item = &plan[i];
        assert(item_views(plan@)[i as int] == item@);
        let none: Option<Link> = None;
        let k: usize = item.branch_index;
        if k < links.len() {
            assert(lv[k as int] == link_view(links@[k as int]));
            push_step(item, &links[k], why_empty, on, out);
        } else {
            push_step(item, &none, why_empty, on, out);
        }
        proof {
            assert(all.take(i + 1) =~= all.take(i as int).push(all[i as int]));
            seqs::lemma_joined_push(all.take(i as int), all[i as int]);
            assert(text::views(out@) =~= start + seqs::joined(all.take(i + 1)));
        }
        i = i + 1;
    }
    assert(all.take(plan.len() as int) =~= all);
}

/// What is told of the push, after `head`: nothing where it did not come to it.
pub open spec fn push_lines(head: Seq<char>, pushed: Option<nat>) -> Seq<Seq<char>> {
    match pushed {
        Some(n) => seq![push_text(head, n)],
        None => Seq::empty(),
    }
}

/// What is told of a push of so many branches, after `head`.
pub open spec fn push_text(head: Seq<char>, pushed: nat) -> Seq<char> {
    if pushed == 0 {
        "ℹ "@ + head + "nothing to push"@
    } else {
        "✓ "@ + head + "pushed "@ + text::decimal(pushed) + " branch(es)"@
    }
}

fn make_push_line(head: &str, pushed: usize) -> (r: String)
    ensures
        r@ == push_text(head@, pushed as nat),
{
    if pushed == 0 {
        text::cat3("ℹ ", head, "nothing to push")
    } else {
        let mut line = text::cat3("✓ ", head, "pushed ");
        line.append(text::to_decimal(pushed as u64).as_str());
        line.append(" branch(es)");
        line
    }
}

/// What is told of the submission of a stack.
pub open spec fn stack_report(report: ReportView, stack: StackView, on: bool) -> Seq<Seq<char>> {
    (if report.newly_merged > 0 {
        seq![
            "ℹ "@ + text::decimal(report.newly_merged)
                + " PR(s) merged since last refresh"@,
        ]
    } else {
        Seq::empty()
    }) + push_lines(""@, report.pushed) + seqs::joined(
        steps(report.done, stack_links(stack), " (no commits)"@, on),
    )
}

/// What to tell of the submission of a stack, which is as it is afterwards. A
/// submission that failed is told as far as it came.
pub fn stack_lines(report: &SubmitReport, stack: &Stack, on: bool) -> (r: Vec<String>)
    ensures
        text::views(r@) == stack_report(report@, stack@, on),
{
    let mut out: Vec<String> = Vec::new();
    let ghost mut first: Seq<Seq<char>> = Seq::empty();
    assert(text::views(out@) =~= first);
    if report.newly_merged > 0 {
        let line = text::cat3(
            "ℹ ",
            text::to_decimal(report.newly_merged as u64).as_str(),
            " PR(s) merged since last refresh",
        );
        proof {
            first = seq![line@];
        }
        out.push(line);
        assert(text::views(out@) =~= first);
    }
    if let Some(pushed) = report.pushed {
        let line = make_push_line("", pushed);
        out.push(line);
    }
    assert(text::views(out@) =~= first + push_lines(""@, report@.pushed));
    let links = find_stack_links(stack);
    push_steps(&report.done, &links, " (no commits)", on, &mut out);
    out
}

/// What is told of the submission of a pool.
pub open spec fn pool_report(report: ReportView, pool: PoolView, on: bool) -> Seq<Seq<char>> {
    push_lines("pool "@ + pool.label() + ": "@, report.pushed) + seqs::joined(
        steps(report.done, pool_links(pool), " (no commits over its base)"@, on),
    )
}

/// What to tell of the submission of a pool, which is as it is afterwards. A
/// submission that failed is told as far as it came.
pub fn pool_lines(report: &SubmitReport, pool: &Pool, on: bool) -> (r: Vec<String>)
    ensures
        text::views(r@) == pool_report(report@, pool@, on),
{
    let mut out: Vec<String> = Vec::new();
    let head = text::cat3("pool ", pool.display_label(), ": ");
    if let Some(pushed) = report.pushed {
        let line = make_push_line(head.as_str(), pushed);
        out.push(line);
    }
    assert(text::views(out@) =~= push_lines(head@, report@.pushed));
    let links = find_pool_links(pool);
    push_steps(&report.done, &links, " (no commits over its base)", on, &mut out);
    out
}

/// What is told of a step: an opened pull request with the number that is
/// recorded, one brought up to date with the number it was looked up by, each with
/// its address below; a branch without commits with the reason. A merged branch
/// is passed over in silence.
pub proof fn law_step_is_told(
    item: ItemView,
    link: Option<LinkView>,
    why_empty: Seq<char>,
    on: bool,
)
    ensures
        ({
            let lines = step_text(item, link, why_empty, on);
            &&& item.action is SkipMerged ==> lines.len() == 0
            &&& item.action is SkipEmpty ==> lines.len() == 1 && lines[0] == "ℹ skipping "@
                + item.branch + why_empty
            &&& item.action matches ActionView::RefreshExisting { number } ==> (link matches Some(l)
                ==> lines.len() == 2 && lines[0] == "ℹ PR #"@ + text::decimal(number as nat)
                + " for "@ + item.branch + " refreshed"@ && text::has_part(lines[1], l.url))
            &&& item.action is Create ==> (link matches Some(l) ==> lines.len() == 2 && lines[0]
                == "✓ created PR #"@ + text::decimal(l.number as nat) + " for "@ + item.branch
                && text::has_part(lines[1], l.url))
        }),
{
    if let Some(l) = link {
        style::law_styled_holds_text(l.url, "4;38;5;250"@, on);
        text::lemma_part_right("    "@, style::url_of(l.url, on), l.url);
    }
}

/// The links of a report are the pull requests that are recorded, branch by
/// branch.
pub proof fn law_links_are_recorded(stack: StackView, pool: PoolView)
    ensures
        stack_links(stack).len() == stack.branches.len(),
        forall|i: int|
            0 <= i < stack.branches.len() ==> match (
            #[trigger] stack.branches[i]).pull_request {
                Some(p) => stack_links(stack)[i] matches Some(l) && l.number == p.number && l.url
                    == p.url,
                None => stack_links(stack)[i] is None,
            },
        pool_links(pool).len() == pool.branches.len(),
        forall|i: int|
            0 <= i < pool.branches.len() ==> match (#[trigger] pool.branches[i]).pull_request {
                Some(p) => pool_links(pool)[i] matches Some(l) && l.number == p.number && l.url
                    == p.url,
                None => pool_links(pool)[i] is None,
            },
{
}

/// A submission is told with how many branches were pushed, where it came to that,
/// and every step that was carried out, in order.
#[verifier::rlimit(40)]
pub proof fn law_submission_is_told(
    report: ReportView,
    stack: StackView,
    pool: PoolView,
    on: bool,
    k: int,
    i: int,
) -> (r: (int, int))
    requires
        0 <= k < report.done.len(),
        0 <= report.done[k].branch_index < stack.branches.len(),
        0 <= report.done[k].branch_index < pool.branches.len(),
        0 <= i,
    ensures
        ({
            let at = report.done[k].branch_index;
            let one = step_text(report.done[k], stack_links(stack)[at], " (no commits)"@, on);
            let other = step_text(
                report.done[k],
                pool_links(pool)[at],
                " (no commits over its base)"@,
                on,
            );
            let lines = stack_report(report, stack, on);
            let rows = pool_report(report, pool, on);
            &&& i < one.len() ==> 0 <= r.0 < lines.len() && lines[r.0] == one[i]
            &&& i < other.len() ==> 0 <= r.1 < rows.len() && rows[r.1] == other[i]
            &&& report.pushed matches Some(n) ==> {
                &&& n > 0 ==> rows.len() > 0 && rows[0] == "✓ "@ + ("pool "@ + pool.label()
                    + ": "@) + "pushed "@ + text::decimal(n) + " branch(es)"@
                &&& n > 0 && report.newly_merged == 0 ==> lines.len() > 0 && lines[0] == "✓ "@
                    + ""@ + "pushed "@ + text::decimal(n) + " branch(es)"@
            }
            &&& report.newly_merged > 0 ==> lines.len() > 0 && lines[0] == "ℹ "@ + text::decimal(
                report.newly_merged,
            ) + " PR(s) merged since last refresh"@
        }),
{
    let at = report.done[k].branch_index;
    let a = steps(report.done, stack_links(stack), " (no commits)"@, on);
    let b = steps(report.done, pool_links(pool), " (no commits over its base)"@, on);
    let one = step_text(report.done[k], stack_links(stack)[at], " (no commits)"@, on);
    let other = step_text(
        report.done[k],
        pool_links(pool)[at],
        " (no commits over its base)"@,
        on,
    );
    let lines = stack_report(report, stack, on);
    let rows = pool_report(report, pool, on);
    let head = (if report.newly_merged > 0 {
        seq![
            "ℹ "@ + text::decimal(report.newly_merged) + " PR(s) merged since last refresh"@,
        ]
    } else {
        Seq::empty()
    }) + push_lines(""@, report.pushed);
    let top = push_lines("pool "@ + pool.label() + ": "@, report.pushed);
    assert(lines == head + seqs::joined(a));
    assert(rows == top + seqs::joined(b));
    assert(a[k] == one && b[k] == other);
    let x = if i < one.len() {
        head.len() + seqs::lemma_joined_holds(a, k, i)
    } else {
        0
    };
    let y = if i < other.len() {
        top.len() + seqs::lemma_joined_holds(b, k, i)
    } else {
        0
    };
    if report.newly_merged > 0 || report.pushed is Some {
        assert(lines[0] == head[0]);
    }
    if report.pushed is Some {
        assert(rows[0] == top[0]);
    }
    (x, y)
}

} // verus!
