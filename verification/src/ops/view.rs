//! `stack view`: one stack, as text or as data.

use vstd::prelude::*;

use crate::clock;
use crate::domain::error::StackError;
use crate::domain::stack::{
    holding, Branch, BranchView, PullRequest, PullRequestView, Stack, StackFile, StackView,
};
use crate::ops::pool::list::{freshness, make_freshness};
use crate::ops::prune::{label_of, stack_label};
use crate::ops::submit::find_stack;
use crate::ops::switch::{display_name, shown_name};
use crate::ops::walk::{status_views, BranchStatus, BranchStatusView};
use crate::seqs;
use crate::style;
use crate::style::glyph;
use crate::text;

verus! {

#[derive(Debug)]
pub struct ViewArgs {
    pub json: bool,
    pub refresh: bool,
}

/// Which stack is shown: the first that holds the checked-out branch.
pub fn viewed_stack(file: &StackFile, current: Option<&str>) -> (r: Result<usize, StackError>)
    ensures
        ({
            let name = match current {
                Some(c) => c@,
                None => ""@,
            };
            match seqs::first_where(file@.stacks, holding(name)) {
                Some(k) => r matches Ok(i) && i == k && i < file.stacks@.len(),
                None => r == Err::<usize, StackError>(StackError::NotInStack),
            }
        }),
{
    let name = match current {
        Some(c) => c,
        None => "",
    };
    match find_stack(file, name) {
        Some(i) => Ok(i),
        None => Err(StackError::NotInStack),
    }
}

/// A pull request as data.
#[derive(Debug)]
pub struct PrOut {
    pub number: u64,
    pub url: String,
    pub state: String,
}

#[verifier::ext_equal]
pub struct PrOutView {
    pub number: u64,
    pub url: Seq<char>,
    pub state: Seq<char>,
}

impl View for PrOut {
    type V = PrOutView;

    open spec fn view(&self) -> PrOutView {
        PrOutView { number: self.number, url: self.url@, state: self.state@ }
    }
}

/// The model of an optional pull request as data.
pub open spec fn opt_pr_out(pr: Option<PrOut>) -> Option<PrOutView> {
    match pr {
        Some(p) => Some(p@),
        None => None,
    }
}

/// A pull request as data.
pub open spec fn pr_shown(pr: PullRequestView) -> PrOutView {
    PrOutView {
        number: pr.number,
        url: pr.url,
        state: if pr.merged {
            "MERGED"@
        } else {
            "OPEN"@
        },
    }
}

/// The pull request of a branch as data.
pub open spec fn opt_pr_shown(pr: Option<PullRequestView>) -> Option<PrOutView> {
    match pr {
        Some(p) => Some(pr_shown(p)),
        None => None,
    }
}

/// A pull request as data.
pub fn pr_out(pr: &PullRequest) -> (r: PrOut)
    ensures
        r@ == pr_shown(pr@),
{
    PrOut {
        number: pr.number,
        url: pr.url.clone(),
        state: (if pr.merged {
            "MERGED"
        } else {
            "OPEN"
        }).to_string(),
    }
}

/// The pull request of a branch as data.
pub(crate) fn opt_pr(pr: &Option<PullRequest>) -> (r: Option<PrOut>)
    ensures
        opt_pr_out(r) == opt_pr_shown(
            match *pr {
                Some(p) => Some(p@),
                None => None,
            },
        ),
{
    match pr {
        Some(p) => Some(pr_out(p)),
        None => None,
    }
}

/// A branch as data.
#[derive(Debug)]
pub struct BranchOut {
    pub name: String,
    pub head: Option<String>,
    pub base: String,
    pub is_current: bool,
    pub is_merged: bool,
    pub needs_rebase: bool,
    pub pr: Option<PrOut>,
}

#[verifier::ext_equal]
pub struct BranchOutView {
    pub name: Seq<char>,
    pub head: Option<Seq<char>>,
    pub base: Seq<char>,
    pub is_current: bool,
    pub is_merged: bool,
    pub needs_rebase: bool,
    pub pr: Option<PrOutView>,
}

impl View for BranchOut {
    type V = BranchOutView;

    open spec fn view(&self) -> BranchOutView {
        BranchOutView {
            name: self.name@,
            head: text::opt_view(self.head),
            base: self.base@,
            is_current: self.is_current,
            is_merged: self.is_merged,
            needs_rebase: self.needs_rebase,
            pr: opt_pr_out(self.pr),
        }
    }
}

/// The models of a list of branches as data.
pub open spec fn out_views(list: Seq<BranchOut>) -> Seq<BranchOutView> {
    list.map_values(|b: BranchOut| b@)
}

/// A branch as data: the record, with what git says of it now.
pub open spec fn branch_shown(
    b: BranchView,
    status: BranchStatusView,
    current: Option<Seq<char>>,
) -> BranchOutView {
    BranchOutView {
        name: b.branch,
        head: status.live_head,
        base: b.base,
        is_current: current == Some(b.branch),
        is_merged: b.is_merged(),
        needs_rebase: status.needs_rebase,
        pr: opt_pr_shown(b.pull_request),
    }
}

/// Whether this is the checked-out branch.
pub(crate) fn is_current(branch: &str, current: Option<&str>) -> (r: bool)
    ensures
        r == (text::opt_str_view(current) == Some(branch@)),
{
    match current {
        Some(c) => text::same(c, branch),
        None => false,
    }
}

/// A branch as data: the record, with what git says of it now.
pub fn branch_out(b: &Branch, status: &BranchStatus, current: Option<&str>) -> (r: BranchOut)
    ensures
        r@ == branch_shown(b@, status@, text::opt_str_view(current)),
{
    BranchOut {
        name: b.branch.clone(),
        head: text::copy_opt(&status.live_head),
        base: b.base.clone(),
        is_current: is_current(b.branch.as_str(), current),
        is_merged: b.is_merged(),
        needs_rebase: status.needs_rebase,
        pr: opt_pr(&b.pull_request),
    }
}

/// A stack as data.
#[derive(Debug)]
pub struct ViewOutput {
    pub trunk: String,
    pub prefix: Option<String>,
    pub current_branch: Option<String>,
    pub last_refreshed_at: Option<String>,
    pub branches: Vec<BranchOut>,
}

#[verifier::ext_equal]
pub struct ViewOutputView {
    pub trunk: Seq<char>,
    pub prefix: Option<Seq<char>>,
    pub current_branch: Option<Seq<char>>,
    pub last_refreshed_at: Option<Seq<char>>,
    pub branches: Seq<BranchOutView>,
}

impl View for ViewOutput {
    type V = ViewOutputView;

    open spec fn view(&self) -> ViewOutputView {
        ViewOutputView {
            trunk: self.trunk@,
            prefix: text::opt_view(self.prefix),
            current_branch: text::opt_view(self.current_branch),
            last_refreshed_at: text::opt_view(self.last_refreshed_at),
            branches: out_views(self.branches@),
        }
    }
}

/// A stack as data, the branches from the bottom up.
pub open spec fn stack_shown(
    stack: StackView,
    statuses: Seq<BranchStatusView>,
    current: Option<Seq<char>>,
) -> ViewOutputView {
    ViewOutputView {
        trunk: stack.trunk.branch,
        prefix: stack.prefix,
        current_branch: current,
        last_refreshed_at: stack.last_refreshed_at,
        branches: Seq::new(
            stack.branches.len(),
            |i: int| branch_shown(stack.branches[i], statuses[i], current),
        ),
    }
}

/// A stack as data, given what git says of each branch.
pub fn view_output(stack: &Stack, statuses: &Vec<BranchStatus>, current: Option<&str>) -> (r:
    ViewOutput)
    requires
        statuses@.len() == stack.branches@.len(),
    ensures
        r@ == stack_shown(stack@, status_views(statuses@), text::opt_str_view(current)),
{
    let ghost cv = text::opt_str_view(current);
    let ghost sv = status_views(statuses@);
    let ghost target = stack_shown(stack@, sv, cv).branches;
    let mut branches: Vec<BranchOut> = Vec::new();
    let mut i: usize = 0;
    assert(out_views(branches@) =~= target.take(0));
    while i < stack.branches.len()
        invariant
            i <= stack.branches@.len(),
            statuses@.len() == stack.branches@.len(),
            cv == text::opt_str_view(current),
            sv == status_views(statuses@),
            target == stack_shown(stack@, sv, cv).branches,
            out_views(branches@) == target.take(i as int),
        decreases stack.branches.len() - i,
    {
        let ghost before = out_views(branches@);
        assert(stack@.branches[i as int] == stack.branches@[i as int]@);
        assert(sv[i as int] == statuses@[i as int]@);
        let b = branch_out(&stack.branches[i], &statuses[i], current);
        let ghost model = b@;
        branches.push(b);
        assert(out_views(branches@) =~= before.push(model));
        assert(out_views(branches@) =~= target.take(i + 1));
        i = i + 1;
    }
    assert(out_views(branches@) =~= target);
    ViewOutput {
        trunk: stack.trunk.branch.clone(),
        prefix: text::copy_opt(&stack.prefix),
        current_branch: match current {
            Some(c) => Some(c.to_string()),
            None => None,
        },
        last_refreshed_at: text::copy_opt(&stack.last_refreshed_at),
        branches,
    }
}

/// The statuses of a branch of this name.
pub open spec fn status_named(name: Seq<char>) -> spec_fn(BranchStatusView) -> bool {
    |s: BranchStatusView| s.branch == name
}

/// Whether a branch needs a rebase, by the first status of that name.
pub open spec fn needs_rebase(statuses: Seq<BranchStatusView>, name: Seq<char>) -> bool {
    match seqs::first_where(statuses, status_named(name)) {
        Some(k) => statuses[k].needs_rebase,
        None => false,
    }
}

fn find_needs(statuses: &Vec<BranchStatus>, name: &str) -> (r: bool)
    ensures
        r == needs_rebase(status_views(statuses@), name@),
{
    let ghost all = status_views(statuses@);
    let ghost p = status_named(name@);
    let mut i: usize = 0;
    while i < statuses.len()
        invariant
            i <= statuses@.len(),
            all == status_views(statuses@),
            p == status_named(name@),
            forall|j: int| 0 <= j < i ==> !p(#[trigger] all[j]),
        decreases statuses.len() - i,
    {
        assert(all[i as int] == statuses@[i as int]@);
        if text::same(statuses[i].branch.as_str(), name) {
            proof {
                seqs::lemma_first_where(all, p, i as int);
            }
            return statuses[i].needs_rebase;
        }
        i = i + 1;
    }
    proof {
        seqs::lemma_first_where_none(all, p);
    }
    false
}

/// How many of the first `n` branches are merged, or are not.
pub open spec fn count_of(stack: StackView, merged: bool, n: int) -> nat
    decreases n,
{
    if n <= 0 {
        0
    } else if stack.branches[n - 1].is_merged() == merged {
        count_of(stack, merged, n - 1) + 1
    } else {
        count_of(stack, merged, n - 1)
    }
}

/// How many branches are merged, or are not.
pub(crate) fn count_branches(stack: &Stack, merged: bool) -> (r: usize)
    ensures
        r == count_of(stack@, merged, stack.branches@.len() as int),
        r <= stack.branches@.len(),
{
    let mut n: usize = 0;
    let mut i: usize = 0;
    while i < stack.branches.len()
        invariant
            i <= stack.branches@.len(),
            n <= i,
            n == count_of(stack@, merged, i as int),
        decreases stack.branches.len() - i,
    {
        assert(stack@.branches[i as int] == stack.branches@[i as int]@);
        if stack.branches[i].is_merged() == merged {
            n = n + 1;
        }
        i = i + 1;
    }
    n
}

/// The width of the longest name of the merged, or the other, branches among
/// the first `n`.
pub open spec fn widest_of(stack: StackView, merged: bool, n: int) -> usize
    decreases n,
{
    if n <= 0 {
        0
    } else {
        let w = widest_of(stack, merged, n - 1);
        let k = text::width(shown_name(stack.prefix, stack.branches[n - 1].branch));
        if stack.branches[n - 1].is_merged() == merged && k > w {
            k
        } else {
            w
        }
    }
}

fn find_widest_of(stack: &Stack, merged: bool) -> (r: usize)
    ensures
        r == widest_of(stack@, merged, stack.branches@.len() as int),
{
    let mut w: usize = 0;
    let mut i: usize = 0;
    while i < stack.branches.len()
        invariant
            i <= stack.branches@.len(),
            w == widest_of(stack@, merged, i as int),
        decreases stack.branches.len() - i,
    {
        assert(stack@.branches[i as int] == stack.branches@[i as int]@);
        let k: usize = display_name(&stack.prefix, &stack.branches[i]).as_str().len();
        if stack.branches[i].is_merged() == merged && k > w {
            w = k;
        }
        i = i + 1;
    }
    w
}

/// The state of a pull request in one word.
pub open spec fn state_word(merged: bool, on: bool) -> Seq<char> {
    if merged {
        style::merged_of("merged"@, on)
    } else {
        style::ok_of("open"@, on)
    }
}

/// The state of a pull request in one word.
pub(crate) fn make_state_word(merged: bool, on: bool) -> (r: String)
    ensures
        r@ == state_word(merged, on),
{
    if merged {
        style::merged("merged", on)
    } else {
        style::ok("open", on)
    }
}

/// What a row says of the pull request.
pub open spec fn pr_part(pr: Option<PullRequestView>, on: bool) -> Seq<char> {
    match pr {
        Some(p) => style::secondary_of("#"@ + text::decimal(p.number as nat), on) + "  "@
            + state_word(p.merged, on),
        None => style::dim_of("(no PR)"@, on),
    }
}

fn make_pr_part(pr: &Option<PullRequest>, on: bool) -> (r: String)
    ensures
        r@ == pr_part(
            match *pr {
                Some(p) => Some(p@),
                None => None,
            },
            on,
        ),
{
    match pr {
        Some(p) => text::cat3(
            style::secondary(
                text::cat("#", text::to_decimal(p.number).as_str()).as_str(),
                on,
            ).as_str(),
            "  ",
            make_state_word(p.merged, on).as_str(),
        ),
        None => style::dim("(no PR)", on),
    }
}

/// The rows of an active branch: its name, pull request and whether it needs a
/// rebase; below, the address of the pull request.
pub open spec fn active_row(
    b: BranchView,
    prefix: Option<Seq<char>>,
    current: bool,
    needs: bool,
    widest: usize,
    on: bool,
) -> Seq<Seq<char>> {
    let name = shown_name(prefix, b.branch);
    let marker = if current {
        style::accent_of("●"@, on)
    } else {
        style::dim_of("○"@, on)
    };
    let styled = if current {
        style::accent_of(name, on)
    } else {
        name
    };
    let tag = if needs {
        "  "@ + style::warn_of("▲"@, on) + " "@ + style::warn_of("needs rebase"@, on)
    } else {
        ""@
    };
    seq![
        "  "@ + marker + "  "@ + styled + text::padding(name, widest) + "    "@ + pr_part(
            b.pull_request,
            on,
        ) + tag,
    ] + match b.pull_request {
        Some(p) => seq![
            "  "@ + style::dim_of("│"@, on) + "     "@ + style::url_of(p.url, on),
        ],
        None => Seq::empty(),
    }
}

fn push_active_row(
    b: &Branch,
    prefix: &Option<String>,
    current: bool,
    needs: bool,
    widest: usize,
    on: bool,
    out: &mut Vec<String>,
)
    ensures
        text::views(final(out)@) == text::views(old(out)@) + active_row(
            b@,
            text::opt_view(*prefix),
            current,
            needs,
            widest,
            on,
        ),
{
    let ghost start = text::views(out@);
    let ghost target = active_row(b@, text::opt_view(*prefix), current, needs, widest, on);
    let name = display_name(prefix, b);
    let marker = if current {
        style::accent(glyph::CURRENT, on)
    } else {
        style::dim(glyph::ACTIVE, on)
    };
    let styled = if current {
        style::accent(name.as_str(), on)
    } else {
        name.clone()
    };
    let mut row = text::cat3("  ", marker.as_str(), "  ");
    row.append(styled.as_str());
    row.append(text::pad(name.as_str(), widest).as_str());
    row.append("    ");
    row.append(make_pr_part(&b.pull_request, on).as_str());
    if needs {
        row.append("  ");
        row.append(style::warn(glyph::WARN, on).as_str());
        row.append(" ");
        row.append(style::warn("needs rebase", on).as_str());
    }
    proof {
        reveal_strlit("");
        assert(row@ =~= target[0]);
    }
    out.push(row);
    assert(text::views(out@) =~= start.push(target[0]));
    if let Some(p) = &b.pull_request {
        let mut line = text::cat3("  ", style::dim(glyph::CHAIN, on).as_str(), "     ");
        line.append(style::url(p.url.as_str(), on).as_str());
        let ghost model = line@;
        out.push(line);
        assert(text::views(out@) =~= start.push(target[0]).push(model));
        assert(target =~= seq![target[0], model]);
    } else {
        assert(target =~= seq![target[0]]);
    }
    assert(text::views(out@) =~= start + target);
}

/// The rows of the active branches among the first `n`, the topmost first.
pub open spec fn active_rows(
    stack: StackView,
    statuses: Seq<BranchStatusView>,
    current: Option<Seq<char>>,
    n: int,
    on: bool,
) -> Seq<Seq<char>>
    decreases n,
{
    if n <= 0 {
        Seq::empty()
    } else {
        let b = stack.branches[n - 1];
        (if b.is_merged() {
            Seq::empty()
        } else {
            active_row(
                b,
                stack.prefix,
                current == Some(b.branch),
                needs_rebase(statuses, b.branch),
                widest_of(stack, false, stack.branches.len() as int),
                on,
            )
        }) + active_rows(stack, statuses, current, n - 1, on)
    }
}

/// The row of a merged branch.
pub open spec fn merged_row(
    b: BranchView,
    prefix: Option<Seq<char>>,
    widest: usize,
    on: bool,
) -> Seq<char> {
    let name = shown_name(prefix, b.branch);
    let number = match b.pull_request {
        Some(p) => "#"@ + text::decimal(p.number as nat),
        None => ""@,
    };
    "  "@ + style::merged_of("✓"@, on) + "  "@ + style::merged_of(name, on) + text::padding(
        name,
        widest,
    ) + "    "@ + style::merged_of(number, on)
}

fn make_merged_row(b: &Branch, prefix: &Option<String>, widest: usize, on: bool) -> (r: String)
    ensures
        r@ == merged_row(b@, text::opt_view(*prefix), widest, on),
{
    let name = display_name(prefix, b);
    let number = match &b.pull_request {
        Some(p) => text::cat("#", text::to_decimal(p.number).as_str()),
        None => "".to_string(),
    };
    let mut row = text::cat3("  ", style::merged(glyph::MERGED, on).as_str(), "  ");
    row.append(style::merged(name.as_str(), on).as_str());
    row.append(text::pad(name.as_str(), widest).as_str());
    row.append("    ");
    row.append(style::merged(number.as_str(), on).as_str());
    row
}

/// The rows of the merged branches among the first `n`, the topmost first.
pub open spec fn merged_rows(stack: StackView, n: int, on: bool) -> Seq<Seq<char>>
    decreases n,
{
    if n <= 0 {
        Seq::empty()
    } else {
        let b = stack.branches[n - 1];
        (if b.is_merged() {
            seq![
                merged_row(
                    b,
                    stack.prefix,
                    widest_of(stack, true, stack.branches.len() as int),
                    on,
                ),
            ]
        } else {
            Seq::empty()
        }) + merged_rows(stack, n - 1, on)
    }
}

/// The rule that fills the line of a section title.
pub open spec fn rule_for(title: Seq<char>) -> Seq<char> {
    Seq::new(
        if text::width(title) < 57 {
            (57 - text::width(title)) as nat
        } else {
            0
        },
        |i: int| '─',
    )
}

fn make_rule(title: &str) -> (r: String)
    ensures
        r@ == rule_for(title@),
{
    let w: usize = title.len();
    let n: usize = if w < 57 {
        57 - w
    } else {
        0
    };
    let mut s = String::new();
    let mut i: usize = 0;
    while i < n
        invariant
            i <= n,
            s@ == Seq::new(i as nat, |k: int| '─'),
        decreases n - i,
    {
        s.push('─');
        i = i + 1;
        assert(s@ =~= Seq::new(i as nat, |k: int| '─'));
    }
    assert(s@ =~= rule_for(title@));
    s
}

/// The heading: label, trunk, how fresh the pull-request data is.
pub open spec fn heading(stack: StackView, now: i128, on: bool) -> Seq<char> {
    let sep = style::dim_of("·"@, on);
    "  "@ + style::bold_of(label_of(stack), on) + "  "@ + sep + "  "@ + style::dim_of("trunk"@, on)
        + " "@ + style::secondary_of(stack.trunk.branch, on) + "  "@ + sep + "  "@ + freshness(
        stack.last_refreshed_at,
        now,
        "PR state never refreshed (`stack view -r` to fetch)"@,
        on,
    )
}

fn make_heading(stack: &Stack, now: i128, on: bool) -> (r: String)
    requires
        clock::in_range(now),
    ensures
        r@ == heading(stack@, now, on),
{
    let sep = style::dim("·", on);
    let mut s = text::cat3("  ", style::bold(stack_label(stack), on).as_str(), "  ");
    s.append(sep.as_str());
    s.append("  ");
    s.append(style::dim("trunk", on).as_str());
    s.append(" ");
    s.append(style::secondary(stack.trunk.branch.as_str(), on).as_str());
    s.append("  ");
    s.append(sep.as_str());
    s.append("  ");
    s.append(
        make_freshness(
            &stack.last_refreshed_at,
            now,
            "PR state never refreshed (`stack view -r` to fetch)",
            on,
        ).as_str(),
    );
    s
}

/// The lines that tie the branches to the trunk.
pub open spec fn anchor(stack: StackView, on: bool) -> Seq<Seq<char>> {
    let foot = "  "@ + style::dim_of("└─"@, on) + " "@ + style::secondary_of(
        stack.trunk.branch,
        on,
    );
    if count_of(stack, false, stack.branches.len() as int) > 0 {
        seq!["  "@ + style::dim_of("│"@, on), foot]
    } else {
        seq![foot, "  "@ + style::dim_of("(no active branches)"@, on)]
    }
}

/// The lines of the merged branches, where there are any.
pub open spec fn merged_section(stack: StackView, on: bool) -> Seq<Seq<char>> {
    let n = count_of(stack, true, stack.branches.len() as int);
    let title = "Merged ("@ + text::decimal(n) + ")"@;
    if n == 0 {
        Seq::empty()
    } else {
        seq![
            ""@,
            "  "@ + style::dim_of(title, on) + " "@ + style::dim_of(rule_for(title), on),
        ] + merged_rows(stack, stack.branches.len() as int, on)
    }
}

/// A stack as text: the active branches from the top down to the trunk, then
/// the merged ones.
pub open spec fn stack_text(
    stack: StackView,
    statuses: Seq<BranchStatusView>,
    current: Option<Seq<char>>,
    now: i128,
    on: bool,
) -> Seq<Seq<char>> {
    seq![heading(stack, now, on), ""@] + active_rows(
        stack,
        statuses,
        current,
        stack.branches.len() as int,
        on,
    ) + anchor(stack, on) + merged_section(stack, on)
}

fn push_active_rows(
    stack: &Stack,
    statuses: &Vec<BranchStatus>,
    current: Option<&str>,
    on: bool,
    out: &mut Vec<String>,
)
    ensures
        text::views(final(out)@) == text::views(old(out)@) + active_rows(
            stack@,
            status_views(statuses@),
            text::opt_str_view(current),
            stack.branches@.len() as int,
            on,
        ),
{
    let ghost start = text::views(out@);
    let ghost sv = status_views(statuses@);
    let ghost cv = text::opt_str_view(current);
    let widest: usize = find_widest_of(stack, false);
    let n: usize = stack.branches.len();
    let ghost total = active_rows(stack@, sv, cv, n as int, on);
    let mut i: usize = n;
    while i > 0
        invariant
            i <= n,
            n == stack.branches@.len(),
            sv == status_views(statuses@),
            cv == text::opt_str_view(current),
            widest == widest_of(stack@, false, n as int),
            total == active_rows(stack@, sv, cv, n as int, on),
            text::views(out@) + active_rows(stack@, sv, cv, i as int, on) == start + total,
        decreases i,
    {
        let ghost before = text::views(out@);
        let ghost rest = active_rows(stack@, sv, cv, i - 1, on);
        i = i - 1;
        let b = &stack.branches[i];
        assert(stack@.branches[i as int] == b@);
        if !b.is_merged() {
            let current_one = is_current(b.branch.as_str(), current);
            let needs = find_needs(statuses, b.branch.as_str());
            push_active_row(b, &stack.prefix, current_one, needs, widest, on, out);
            assert(cv == Some(b@.branch) <==> Some(b@.branch) == cv);
            let ghost row = active_row(
                b@,
                stack@.prefix,
                cv == Some(b@.branch),
                needs_rebase(sv, b@.branch),
                widest,
                on,
            );
            assert(before + (row + rest) =~= (before + row) + rest);
        } else {
            assert(before + (Seq::<Seq<char>>::empty() + rest) =~= before + rest);
        }
    }
    assert(text::views(out@) + Seq::<Seq<char>>::empty() =~= text::views(out@));
}

fn push_merged_rows(stack: &Stack, on: bool, out: &mut Vec<String>)
    ensures
        text::views(final(out)@) == text::views(old(out)@) + merged_rows(
            stack@,
            stack.branches@.len() as int,
            on,
        ),
{
    let ghost start = text::views(out@);
    let widest: usize = find_widest_of(stack, true);
    let n: usize = stack.branches.len();
    let ghost total = merged_rows(stack@, n as int, on);
    let mut i: usize = n;
    while i > 0
        invariant
            i <= n,
            n == stack.branches@.len(),
            widest == widest_of(stack@, true, n as int),
            total == merged_rows(stack@, n as int, on),
            text::views(out@) + merged_rows(stack@, i as int, on) == start + total,
        decreases i,
    {
        let ghost before = text::views(out@);
        let ghost rest = merged_rows(stack@, i - 1, on);
        i = i - 1;
        let b = &stack.branches[i];
        assert(stack@.branches[i as int] == b@);
        if b.is_merged() {
            let row = make_merged_row(b, &stack.prefix, widest, on);
            let ghost model = row@;
            out.push(row);
            assert(text::views(out@) =~= before.push(model));
            assert(before + (seq![model] + rest) =~= before.push(model) + rest);
        } else {
            assert(before + (Seq::<Seq<char>>::empty() + rest) =~= before + rest);
        }
    }
    assert(text::views(out@) + Seq::<Seq<char>>::empty() =~= text::views(out@));
}

/// A stack as text, given what git says of each branch. `now` is the instant
/// that ages are counted from.
pub fn emit_text(
    stack: &Stack,
    statuses: &Vec<BranchStatus>,
    current: Option<&str>,
    now: i128,
    on: bool,
) -> (r: Vec<String>)
    requires
        clock::in_range(now),
    ensures
        text::views(r@) == stack_text(
            stack@,
            status_views(statuses@),
            text::opt_str_view(current),
            now,
            on,
        ),
{
    let mut out: Vec<String> = Vec::new();
    out.push(make_heading(stack, now, on));
    out.push("".to_string());
    assert(text::views(out@) =~= seq![heading(stack@, now, on), ""@]);
    push_active_rows(stack, statuses, current, on, &mut out);
    let ghost mid = text::views(out@);
    let mut foot = text::cat3("  ", style::dim(glyph::ELBOW, on).as_str(), " ");
    foot.append(style::secondary(stack.trunk.branch.as_str(), on).as_str());
    let ghost fv = foot@;
    if count_branches(stack, false) > 0 {
        let pipe = text::cat("  ", style::dim(glyph::CHAIN, on).as_str());
        let ghost pv = pipe@;
        out.push(pipe);
        out.push(foot);
        assert(text::views(out@) =~= mid + seq![pv, fv]);
    } else {
        let note = text::cat("  ", style::dim("(no active branches)", on).as_str());
        let ghost nv = note@;
        out.push(foot);
        out.push(note);
        assert(text::views(out@) =~= mid + seq![fv, nv]);
    }
    assert(text::views(out@) =~= mid + anchor(stack@, on));
    let ghost anchored = text::views(out@);
    let merged: usize = count_branches(stack, true);
    if merged > 0 {
        let title = text::cat3("Merged (", text::to_decimal(merged as u64).as_str(), ")");
        let mut line = text::cat3("  ", style::dim(title.as_str(), on).as_str(), " ");
        line.append(style::dim(make_rule(title.as_str()).as_str(), on).as_str());
        let ghost lv = line@;
        out.push("".to_string());
        out.push(line);
        assert(text::views(out@) =~= anchored + seq![""@, lv]);
        push_merged_rows(stack, on, &mut out);
        assert(text::views(out@) =~= anchored + merged_section(stack@, on));
    } else {
        assert(text::views(out@) =~= anchored + merged_section(stack@, on));
    }
    out
}

/// The active branches and the merged ones make up the stack.
pub proof fn law_active_and_merged_add_up(stack: StackView, n: int)
    requires
        0 <= n <= stack.branches.len(),
    ensures
        count_of(stack, false, n) + count_of(stack, true, n) == n,
    decreases n,
{
    if n > 0 {
        law_active_and_merged_add_up(stack, n - 1);
    }
}

/// A stack as data is what is recorded of it and what git says now: the branches
/// from the bottom up, each with its live head, whether it needs a rebase, is
/// merged, is checked out, and its pull request.
pub proof fn law_view_tells_record(
    stack: StackView,
    statuses: Seq<BranchStatusView>,
    current: Option<Seq<char>>,
    i: int,
)
    requires
        0 <= i < stack.branches.len(),
    ensures
        ({
            let out = stack_shown(stack, statuses, current);
            let b = stack.branches[i];
            let x = out.branches[i];
            &&& out.trunk == stack.trunk.branch && out.prefix == stack.prefix
                && out.last_refreshed_at == stack.last_refreshed_at && out.current_branch == current
            &&& out.branches.len() == stack.branches.len()
            &&& x.name == b.branch && x.base == b.base && x.head == statuses[i].live_head
            &&& x.is_current <==> current == Some(b.branch)
            &&& x.is_merged <==> (b.pull_request matches Some(p) && p.merged)
            &&& x.needs_rebase == statuses[i].needs_rebase
            &&& x.pr is Some <==> b.pull_request is Some
            &&& b.pull_request matches Some(p) ==> (x.pr matches Some(q) && q.number == p.number
                && q.url == p.url && q.state == (if p.merged {
                "MERGED"@
            } else {
                "OPEN"@
            }))
        }),
{
}

/// Whether a branch needs a rebase is what the first status of its name says.
pub proof fn law_needs_is_the_statuss(statuses: Seq<BranchStatusView>, name: Seq<char>, k: int)
    requires
        0 <= k < statuses.len(),
        statuses[k].branch == name,
        forall|j: int| 0 <= j < k ==> (#[trigger] statuses[j]).branch != name,
    ensures
        needs_rebase(statuses, name) == statuses[k].needs_rebase,
{
    seqs::lemma_first_where(statuses, status_named(name), k);
}

/// Whether a list of lines has one that holds a text.
pub open spec fn told(lines: Seq<Seq<char>>, part: Seq<char>) -> bool {
    exists|l: int| 0 <= l < lines.len() && text::has_part(#[trigger] lines[l], part)
}

/// Whether one line says of a branch what it is called here, and all of `parts`.
pub open spec fn row_for(line: Seq<char>, name: Seq<char>, parts: Seq<Seq<char>>) -> bool {
    text::has_part(line, name) && forall|k: int|
        0 <= k < parts.len() ==> text::has_part(line, #[trigger] parts[k])
}

/// What a row has to say of a branch that is not merged: the mark of the current
/// one; its pull request and that it is open, or that it has none; and that it
/// needs a rebase.
pub open spec fn owed(b: BranchView, current: bool, needs: bool) -> Seq<Seq<char>> {
    (if current {
        seq!["●"@]
    } else {
        seq!["○"@]
    }) + (match b.pull_request {
        Some(p) => seq!["#"@ + text::decimal(p.number as nat), "open"@],
        None => seq!["(no PR)"@],
    }) + (if needs {
        seq!["needs rebase"@]
    } else {
        Seq::empty()
    })
}

#[verifier::rlimit(40)]
proof fn lemma_active_row(
    b: BranchView,
    prefix: Option<Seq<char>>,
    current: bool,
    needs: bool,
    widest: usize,
    on: bool,
)
    requires
        !(b.pull_request matches Some(p) && p.merged),
    ensures
        ({
            let lines = active_row(b, prefix, current, needs, widest, on);
            &&& lines.len() > 0
            &&& row_for(lines[0], shown_name(prefix, b.branch), owed(b, current, needs))
            &&& b.pull_request matches Some(p) ==> lines.len() == 2 && text::has_part(
                lines[1],
                p.url,
            )
        }),
{
    let name = shown_name(prefix, b.branch);
    let marker = if current {
        style::accent_of("●"@, on)
    } else {
        style::dim_of("○"@, on)
    };
    let shown = if current {
        style::accent_of(name, on)
    } else {
        name
    };
    let lead = "  "@ + style::warn_of("▲"@, on) + " "@;
    let warn = style::warn_of("needs rebase"@, on);
    let tag = if needs {
        lead + warn
    } else {
        ""@
    };
    let pad = text::padding(name, widest);
    let pr = pr_part(b.pull_request, on);
    let lines = active_row(b, prefix, current, needs, widest, on);
    let row = "  "@ + marker + "  "@ + shown + pad + "    "@ + pr;
    let line = row + tag;
    assert(lines[0] == line);
    let parts = owed(b, current, needs);
    lemma_pr_part(b.pull_request, on);
    style::law_styled_holds_text("●"@, "1;38;5;81"@, on);
    style::law_styled_holds_text("○"@, "38;5;244"@, on);
    style::law_styled_holds_text(name, "1;38;5;81"@, on);
    style::law_styled_holds_text("needs rebase"@, "38;5;215"@, on);
    text::lemma_part_whole(name);
    text::lemma_row_parts("  "@, marker, "  "@, shown, pad, "    "@, pr);
    assert forall|part: Seq<char>| #[trigger] text::has_part(row, part) implies text::has_part(
        line,
        part,
    ) by {
        text::lemma_part_left(row, tag, part);
    }
    assert(text::has_part(row, name));
    assert(text::has_part(row, parts[0]));
    if needs {
        text::lemma_part_right(lead, warn, "needs rebase"@);
        text::lemma_part_right(row, tag, "needs rebase"@);
    }
    if let Some(p) = b.pull_request {
        let number = "#"@ + text::decimal(p.number as nat);
        assert(text::has_part(row, number) && text::has_part(row, "open"@));
        assert(parts[1] == number && parts[2] == "open"@);
        style::law_styled_holds_text(p.url, "4;38;5;250"@, on);
        text::lemma_part_right(
            "  "@ + style::dim_of("│"@, on) + "     "@,
            style::url_of(p.url, on),
            p.url,
        );
    } else {
        assert(text::has_part(row, "(no PR)"@));
    }
    assert forall|k: int| 0 <= k < parts.len() implies text::has_part(line, #[trigger] parts[k]) by {
        if k > 0 && parts[k] != "needs rebase"@ {
            assert(text::has_part(row, parts[k]));
        }
    }
}

proof fn lemma_pr_part(pr: Option<PullRequestView>, on: bool)
    ensures
        pr matches Some(p) ==> text::has_part(
            pr_part(pr, on),
            "#"@ + text::decimal(p.number as nat),
        ) && (!p.merged ==> text::has_part(pr_part(pr, on), "open"@)),
        pr is None ==> text::has_part(pr_part(pr, on), "(no PR)"@),
{
    style::law_styled_holds_text("(no PR)"@, "38;5;244"@, on);
    style::law_styled_holds_text("open"@, "38;5;108"@, on);
    if let Some(p) = pr {
        let number = "#"@ + text::decimal(p.number as nat);
        let first = style::secondary_of(number, on);
        let word = state_word(p.merged, on);
        style::law_styled_holds_text(number, "38;5;250"@, on);
        text::lemma_part_left(first, "  "@, number);
        text::lemma_part_left(first + "  "@, word, number);
        if !p.merged {
            text::lemma_part_right(first + "  "@, word, "open"@);
        }
    }
}

proof fn lemma_active_rows(
    stack: StackView,
    statuses: Seq<BranchStatusView>,
    current: Option<Seq<char>>,
    n: int,
    on: bool,
    i: int,
) -> (l: int)
    requires
        0 <= i < n <= stack.branches.len(),
        !(stack.branches[i].pull_request matches Some(p) && p.merged),
    ensures
        ({
            let b = stack.branches[i];
            let lines = active_rows(stack, statuses, current, n, on);
            &&& 0 <= l < lines.len()
            &&& row_for(
                lines[l],
                shown_name(stack.prefix, b.branch),
                owed(b, current == Some(b.branch), needs_rebase(statuses, b.branch)),
            )
            &&& b.pull_request matches Some(p) ==> told(lines, p.url)
        }),
    decreases n,
{
    let top = stack.branches[n - 1];
    let row = if top.is_merged() {
        Seq::empty()
    } else {
        active_row(
            top,
            stack.prefix,
            current == Some(top.branch),
            needs_rebase(statuses, top.branch),
            widest_of(stack, false, stack.branches.len() as int),
            on,
        )
    };
    let rest = active_rows(stack, statuses, current, n - 1, on);
    let lines = active_rows(stack, statuses, current, n, on);
    assert(lines =~= row + rest);
    if i == n - 1 {
        lemma_active_row(
            top,
            stack.prefix,
            current == Some(top.branch),
            needs_rebase(statuses, top.branch),
            widest_of(stack, false, stack.branches.len() as int),
            on,
        );
        assert(lines[0] == row[0]);
        if top.pull_request is Some {
            assert(lines[1] == row[1]);
        }
        0
    } else {
        let k = lemma_active_rows(stack, statuses, current, n - 1, on, i);
        assert(lines[row.len() + k] == rest[k]);
        if let Some(p) = stack.branches[i].pull_request {
            let m = choose|m: int| 0 <= m < rest.len() && text::has_part(#[trigger] rest[m], p.url);
            assert(lines[row.len() + m] == rest[m]);
        }
        row.len() + k
    }
}

#[verifier::rlimit(40)]
proof fn lemma_merged_rows(stack: StackView, n: int, on: bool, i: int) -> (l: int)
    requires
        0 <= i < n <= stack.branches.len(),
        stack.branches[i].pull_request matches Some(p) && p.merged,
    ensures
        ({
            let b = stack.branches[i];
            let lines = merged_rows(stack, n, on);
            &&& 0 <= l < lines.len()
            &&& row_for(
                lines[l],
                shown_name(stack.prefix, b.branch),
                seq!["✓"@, "#"@ + text::decimal(b.pull_request->0.number as nat)],
            )
        }),
    decreases n,
{
    let top = stack.branches[n - 1];
    let widest = widest_of(stack, true, stack.branches.len() as int);
    let row = if top.is_merged() {
        seq![merged_row(top, stack.prefix, widest, on)]
    } else {
        Seq::empty()
    };
    let rest = merged_rows(stack, n - 1, on);
    let lines = merged_rows(stack, n, on);
    assert(lines =~= row + rest);
    if i == n - 1 {
        let name = shown_name(stack.prefix, top.branch);
        let number = "#"@ + text::decimal(top.pull_request->0.number as nat);
        let line = merged_row(top, stack.prefix, widest, on);
        let mark = style::merged_of("✓"@, on);
        let shown = style::merged_of(name, on);
        let last = style::merged_of(number, on);
        let pad = text::padding(name, widest);
        style::law_styled_holds_text("✓"@, "38;5;246"@, on);
        style::law_styled_holds_text(name, "38;5;246"@, on);
        style::law_styled_holds_text(number, "38;5;246"@, on);
        text::lemma_row_parts("  "@, mark, "  "@, shown, pad, "    "@, last);
        let parts = seq!["✓"@, number];
        assert forall|k: int| 0 <= k < parts.len() implies text::has_part(
            line,
            #[trigger] parts[k],
        ) by {}
        assert(lines[0] == line);
        0
    } else {
        let k = lemma_merged_rows(stack, n - 1, on, i);
        assert(lines[row.len() + k] == rest[k]);
        row.len() + k
    }
}

/// A stack as text tells every branch on a line of its own: an active one with the
/// mark of the current branch, its pull request, and that it needs a rebase where
/// it does; a merged one with its mark and number. The address of an open pull
/// request is told too.
pub proof fn law_view_tells_every_branch(
    stack: StackView,
    statuses: Seq<BranchStatusView>,
    current: Option<Seq<char>>,
    now: i128,
    on: bool,
    i: int,
) -> (l: int)
    requires
        0 <= i < stack.branches.len(),
    ensures
        ({
            let b = stack.branches[i];
            let lines = stack_text(stack, statuses, current, now, on);
            &&& 0 <= l < lines.len()
            &&& match b.pull_request {
                Some(p) if p.merged => row_for(
                    lines[l],
                    shown_name(stack.prefix, b.branch),
                    seq!["✓"@, "#"@ + text::decimal(p.number as nat)],
                ),
                _ => row_for(
                    lines[l],
                    shown_name(stack.prefix, b.branch),
                    owed(b, current == Some(b.branch), needs_rebase(statuses, b.branch)),
                ) && (b.pull_request matches Some(p) ==> told(lines, p.url)),
            }
        }),
{
    let n = stack.branches.len() as int;
    let b = stack.branches[i];
    let head = seq![heading(stack, now, on), ""@];
    let rows = active_rows(stack, statuses, current, n, on);
    let foot = anchor(stack, on);
    let merged = merged_section(stack, on);
    let lines = stack_text(stack, statuses, current, now, on);
    assert(lines =~= head + rows + foot + merged);
    if b.is_merged() {
        lemma_counted(stack, true, n, i);
        let list = merged_rows(stack, n, on);
        let k = lemma_merged_rows(stack, n, on, i);
        let at = head.len() + rows.len() + foot.len() + 2 + k;
        assert(merged[2 + k] == list[k]);
        assert(lines[at] == merged[2 + k]);
        at
    } else {
        let k = lemma_active_rows(stack, statuses, current, n, on, i);
        assert(lines[head.len() + k] == rows[k]);
        if let Some(p) = b.pull_request {
            let m = choose|m: int| 0 <= m < rows.len() && text::has_part(#[trigger] rows[m], p.url);
            assert(lines[head.len() + m] == rows[m]);
        }
        head.len() + k
    }
}

proof fn lemma_counted(stack: StackView, merged: bool, n: int, i: int)
    requires
        0 <= i < n <= stack.branches.len(),
        stack.branches[i].is_merged() == merged,
    ensures
        count_of(stack, merged, n) > 0,
    decreases n,
{
    if i < n - 1 {
        lemma_counted(stack, merged, n - 1, i);
    }
}

/// No name of the merged, or of the other, branches is wider than the widest of
/// them.
pub proof fn law_widest_is_widest(stack: StackView, merged: bool, n: int)
    requires
        0 <= n <= stack.branches.len(),
    ensures
        forall|i: int|
            0 <= i < n && (#[trigger] stack.branches[i]).is_merged() == merged ==> text::width(
                shown_name(stack.prefix, stack.branches[i].branch),
            ) <= widest_of(stack, merged, n),
    decreases n,
{
    if n > 0 {
        law_widest_is_widest(stack, merged, n - 1);
    }
}

/// The heading names the stack and its trunk, and says how old the data is, or
/// that it was never fetched.
pub proof fn law_heading_tells_stack(stack: StackView, now: i128, on: bool)
    ensures
        stack.prefix matches Some(p) ==> text::has_part(heading(stack, now, on), p),
        text::has_part(heading(stack, now, on), stack.trunk.branch),
        stack.last_refreshed_at matches Some(ts) ==> text::has_part(
            heading(stack, now, on),
            "refreshed "@ + clock::age_of(ts, now),
        ),
        stack.last_refreshed_at is None ==> text::has_part(
            heading(stack, now, on),
            "PR state never refreshed (`stack view -r` to fetch)"@,
        ),
{
    let sep = style::dim_of("·"@, on);
    let name = style::bold_of(label_of(stack), on);
    let word = style::dim_of("trunk"@, on);
    let trunk = style::secondary_of(stack.trunk.branch, on);
    let never = "PR state never refreshed (`stack view -r` to fetch)"@;
    let age = freshness(stack.last_refreshed_at, now, never, on);
    let part = match stack.last_refreshed_at {
        Some(ts) => "refreshed "@ + clock::age_of(ts, now),
        None => never,
    };
    style::law_styled_holds_text(label_of(stack), "1"@, on);
    style::law_styled_holds_text(stack.trunk.branch, "38;5;250"@, on);
    style::law_styled_holds_text(part, "38;5;244"@, on);
    let start = "  "@ + name + "  "@ + sep + "  "@ + word + " "@;
    let mid = start + trunk;
    let end = mid + "  "@ + sep + "  "@;
    let label = label_of(stack);
    text::lemma_part_right("  "@, name, label);
    text::lemma_part_left("  "@ + name, "  "@, label);
    text::lemma_part_left("  "@ + name + "  "@, sep, label);
    text::lemma_part_left("  "@ + name + "  "@ + sep, "  "@, label);
    text::lemma_part_left("  "@ + name + "  "@ + sep + "  "@, word, label);
    text::lemma_part_left("  "@ + name + "  "@ + sep + "  "@ + word, " "@, label);
    text::lemma_part_left(start, trunk, label);
    text::lemma_part_right(start, trunk, stack.trunk.branch);
    assert forall|x: Seq<char>| #[trigger] text::has_part(mid, x) implies text::has_part(
        end + age,
        x,
    ) by {
        text::lemma_part_left(mid, "  "@, x);
        text::lemma_part_left(mid + "  "@, sep, x);
        text::lemma_part_left(mid + "  "@ + sep, "  "@, x);
        text::lemma_part_left(end, age, x);
    }
    assert(text::has_part(mid, label) && text::has_part(mid, stack.trunk.branch));
    text::lemma_part_right(end, age, part);
    assert(heading(stack, now, on) == end + age);
}

} // verus!
