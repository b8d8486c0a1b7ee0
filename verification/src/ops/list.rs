//! `stack list`: every stack of the repository, as text or as data.

use vstd::prelude::*;

use crate::domain::stack::{
    live, stack_views, worktree_views, Branch, BranchView, PullRequest, PullRequestView, Stack, StackFile,
    StackFileView, StackView, StatusView, Worktree, WorktreeStatus, WorktreeView,
};
use crate::ops::prune::{label_of, stack_label};
use crate::ops::switch::{display_name, find_widest, shown_name, widest_name};
use crate::ops::view::{
    count_branches, count_of, is_current, make_state_word, opt_pr, opt_pr_out, opt_pr_shown,
    row_for, state_word, told, PrOut, PrOutView,
};
use crate::paths;
use crate::seqs;
use crate::style;
use crate::style::glyph;
use crate::text;

verus! {

#[derive(Debug)]
pub struct ListArgs {
    pub json: bool,
    pub refresh: bool,
}

/// A branch as data.
#[derive(Debug)]
pub struct BranchSummary {
    pub name: String,
    pub is_merged: bool,
    pub is_current: bool,
    pub pr: Option<PrOut>,
}

#[verifier::ext_equal]
pub struct BranchSummaryView {
    pub name: Seq<char>,
    pub is_merged: bool,
    pub is_current: bool,
    pub pr: Option<PrOutView>,
}

impl View for BranchSummary {
    type V = BranchSummaryView;

    open spec fn view(&self) -> BranchSummaryView {
        BranchSummaryView {
            name: self.name@,
            is_merged: self.is_merged,
            is_current: self.is_current,
            pr: opt_pr_out(self.pr),
        }
    }
}

/// The models of a list of branches as data.
pub open spec fn summary_views(list: Seq<BranchSummary>) -> Seq<BranchSummaryView> {
    list.map_values(|b: BranchSummary| b@)
}

/// A stack as data.
#[derive(Debug)]
pub struct StackSummary {
    pub prefix: Option<String>,
    pub trunk: String,
    pub branch_count: usize,
    pub active_count: usize,
    pub branches: Vec<BranchSummary>,
    pub is_current: bool,
    /// The path of a worktree that shows a branch of the stack, if any.
    pub worktree: Option<String>,
    /// Whether git still tracks that path but the directory is gone.
    pub worktree_missing: bool,
}

#[verifier::ext_equal]
pub struct StackSummaryView {
    pub prefix: Option<Seq<char>>,
    pub trunk: Seq<char>,
    pub branch_count: int,
    pub active_count: int,
    pub branches: Seq<BranchSummaryView>,
    pub is_current: bool,
    pub worktree: Option<Seq<char>>,
    pub worktree_missing: bool,
}

impl View for StackSummary {
    type V = StackSummaryView;

    open spec fn view(&self) -> StackSummaryView {
        StackSummaryView {
            prefix: text::opt_view(self.prefix),
            trunk: self.trunk@,
            branch_count: self.branch_count as int,
            active_count: self.active_count as int,
            branches: summary_views(self.branches@),
            is_current: self.is_current,
            worktree: text::opt_view(self.worktree),
            worktree_missing: self.worktree_missing,
        }
    }
}

/// The models of a list of stacks as data.
pub open spec fn stack_summary_views(list: Seq<StackSummary>) -> Seq<StackSummaryView> {
    list.map_values(|s: StackSummary| s@)
}

/// Every stack of the repository as data.
#[derive(Debug)]
pub struct ListOutput {
    pub repository: String,
    pub stacks: Vec<StackSummary>,
}

/// A branch as data.
pub open spec fn branch_summarised(b: BranchView, current: Option<Seq<char>>) -> BranchSummaryView {
    BranchSummaryView {
        name: b.branch,
        is_merged: b.is_merged(),
        is_current: current == Some(b.branch),
        pr: opt_pr_shown(b.pull_request),
    }
}

/// A stack as data, the branches from the bottom up.
pub open spec fn summarised(
    s: StackView,
    current: Option<Seq<char>>,
    status: StatusView,
) -> StackSummaryView {
    StackSummaryView {
        prefix: s.prefix,
        trunk: s.trunk.branch,
        branch_count: s.branches.len() as int,
        active_count: count_of(s, false, s.branches.len() as int) as int,
        branches: s.branches.map_values(|b: BranchView| branch_summarised(b, current)),
        is_current: current matches Some(c) && s.has(c),
        worktree: match status {
            StatusView::Live(p) => Some(p),
            StatusView::Missing(p) => Some(p),
            StatusView::Absent => None,
        },
        worktree_missing: status is Missing,
    }
}

fn summarise(s: &Stack, current: Option<&str>, status: WorktreeStatus) -> (r: StackSummary)
    ensures
        r@ == summarised(s@, text::opt_str_view(current), status@),
{
    let ghost cv = text::opt_str_view(current);
    let ghost target = summarised(s@, cv, status@).branches;
    let mut branches: Vec<BranchSummary> = Vec::new();
    let mut i: usize = 0;
    assert(summary_views(branches@) =~= target.take(0));
    while i < s.branches.len()
        invariant
            i <= s.branches@.len(),
            cv == text::opt_str_view(current),
            target == s@.branches.map_values(|b: BranchView| branch_summarised(b, cv)),
            summary_views(branches@) == target.take(i as int),
        decreases s.branches.len() - i,
    {
        let ghost before = summary_views(branches@);
        let b = &s.branches[i];
        assert(s@.branches[i as int] == b@);
        let out = BranchSummary {
            name: b.branch.clone(),
            is_merged: b.is_merged(),
            is_current: is_current(b.branch.as_str(), current),
            pr: opt_pr(&b.pull_request),
        };
        let ghost model = out@;
        branches.push(out);
        assert(summary_views(branches@) =~= before.push(model));
        assert(model =~= target[i as int]);
        assert(summary_views(branches@) =~= target.take(i + 1));
        i = i + 1;
    }
    assert(summary_views(branches@) =~= target);
    let (worktree, worktree_missing) = match status {
        WorktreeStatus::Live(p) => (Some(p), false),
        WorktreeStatus::Missing(p) => (Some(p), true),
        WorktreeStatus::Absent => (None, false),
    };
    StackSummary {
        prefix: text::copy_opt(&s.prefix),
        trunk: s.trunk.branch.clone(),
        branch_count: s.branches.len(),
        active_count: count_branches(s, false),
        branches,
        is_current: match current {
            Some(c) => s.contains(c),
            None => false,
        },
        worktree,
        worktree_missing,
    }
}

/// Every stack of the repository as data.
pub fn list_output(
    file: &StackFile,
    current: Option<&str>,
    worktrees: &Vec<Worktree>,
    cwd: &str,
) -> (r: ListOutput)
    ensures
        r.repository@ == file@.repository,
        stack_summary_views(r.stacks@) == file@.stacks.map_values(
            |s: StackView|
                summarised(
                    s,
                    text::opt_str_view(current),
                    s.worktree(worktree_views(worktrees@), cwd@),
                ),
        ),
{
    let ghost cv = text::opt_str_view(current);
    let ghost wv = worktree_views(worktrees@);
    let ghost target = file@.stacks.map_values(
        |s: StackView| summarised(s, cv, s.worktree(wv, cwd@)),
    );
    let mut stacks: Vec<StackSummary> = Vec::new();
    let mut i: usize = 0;
    assert(stack_summary_views(stacks@) =~= target.take(0));
    while i < file.stacks.len()
        invariant
            i <= file.stacks@.len(),
            cv == text::opt_str_view(current),
            wv == worktree_views(worktrees@),
            target == file@.stacks.map_values(
                |s: StackView| summarised(s, cv, s.worktree(wv, cwd@)),
            ),
            stack_summary_views(stacks@) == target.take(i as int),
        decreases file.stacks.len() - i,
    {
        let ghost before = stack_summary_views(stacks@);
        let s = &file.stacks[i];
        assert(file@.stacks[i as int] == s@);
        let out = summarise(s, current, s.resolve_worktree(worktrees, cwd));
        let ghost model = out@;
        stacks.push(out);
        assert(stack_summary_views(stacks@) =~= before.push(model));
        assert(stack_summary_views(stacks@) =~= target.take(i + 1));
        i = i + 1;
    }
    assert(stack_summary_views(stacks@) =~= target);
    ListOutput { repository: file.repository.clone(), stacks }
}

/// The trunk that every stack has, where they all have the same.
pub open spec fn shared_trunk(stacks: Seq<StackView>) -> Option<Seq<char>> {
    if forall|i: int|
        0 <= i < stacks.len() ==> (#[trigger] stacks[i]).trunk.branch == stacks[0].trunk.branch {
        Some(stacks[0].trunk.branch)
    } else {
        None
    }
}

fn find_shared_trunk(file: &StackFile) -> (r: Option<String>)
    requires
        file.stacks@.len() > 0,
    ensures
        text::opt_view(r) == shared_trunk(file@.stacks),
{
    let ghost all = file@.stacks;
    let first = file.stacks[0].trunk.branch.as_str();
    assert(all[0] == file.stacks@[0]@);
    let mut i: usize = 0;
    while i < file.stacks.len()
        invariant
            i <= file.stacks@.len(),
            all == stack_views(file.stacks@),
            first@ == all[0].trunk.branch,
            forall|j: int| 0 <= j < i ==> (#[trigger] all[j]).trunk.branch == first@,
        decreases file.stacks.len() - i,
    {
        assert(all[i as int] == file.stacks@[i as int]@);
        if !text::same(file.stacks[i].trunk.branch.as_str(), first) {
            return None;
        }
        i = i + 1;
    }
    Some(first.to_string())
}

/// The fragment of a heading that names the trunk.
pub open spec fn trunk_part(trunk: Seq<char>, on: bool) -> Seq<char> {
    "  "@ + style::dim_of("·"@, on) + "  "@ + style::dim_of("trunk"@, on) + " "@
        + style::secondary_of(trunk, on)
}

fn make_trunk_part(trunk: &str, on: bool) -> (r: String)
    ensures
        r@ == trunk_part(trunk@, on),
{
    let mut s = text::cat3("  ", style::dim("·", on).as_str(), "  ");
    s.append(style::dim("trunk", on).as_str());
    s.append(" ");
    s.append(style::secondary(trunk, on).as_str());
    s
}

/// The heading of the list: repository, number of stacks, and the trunk where
/// all stacks share it.
pub open spec fn list_heading(file: StackFileView, on: bool) -> Seq<char> {
    let n = file.stacks.len();
    "  "@ + style::bold_of(file.repository, on) + "  "@ + style::dim_of("·"@, on) + "  "@
        + style::dim_of(
        text::decimal(n) + if n == 1 {
            " stack"@
        } else {
            " stacks"@
        },
        on,
    ) + match shared_trunk(file.stacks) {
        Some(t) => trunk_part(t, on),
        None => ""@,
    }
}

fn make_list_heading(file: &StackFile, shared: &Option<String>, on: bool) -> (r: String)
    requires
        text::opt_view(*shared) == shared_trunk(file@.stacks),
    ensures
        r@ == list_heading(file@, on),
{
    let n: usize = file.stacks.len();
    assert(n == file@.stacks.len());
    let count = text::cat(
        text::to_decimal(n as u64).as_str(),
        if n == 1 {
            " stack"
        } else {
            " stacks"
        },
    );
    let mut s = text::cat3("  ", style::bold(file.repository.as_str(), on).as_str(), "  ");
    s.append(style::dim("·", on).as_str());
    s.append("  ");
    s.append(style::dim(count.as_str(), on).as_str());
    match shared {
        Some(t) => {
            s.append(make_trunk_part(t.as_str(), on).as_str());
        },
        None => {
            proof {
                reveal_strlit("");
                assert(s@ =~= s@ + ""@);
            }
        },
    }
    s
}

/// How many branches, and how many merged.
pub open spec fn counts_part(total: nat, merged: nat, on: bool) -> Seq<char> {
    style::secondary_of(text::decimal(total), on) + " "@ + style::dim_of(
        if total == 1 {
            "branch"@
        } else {
            "branches"@
        },
        on,
    ) + "  "@ + style::secondary_of(text::decimal(merged), on) + " "@ + style::dim_of(
        "merged"@,
        on,
    )
}

/// What stands at the right of a stack's heading: its worktree; without one,
/// how many branches it has where that is worth a word.
pub open spec fn right_slot(
    s: StackView,
    status: StatusView,
    home: Option<Seq<char>>,
    on: bool,
) -> Seq<char> {
    let total = s.branches.len();
    let merged = count_of(s, true, total as int);
    match status {
        StatusView::Live(p) => style::secondary_of(paths::shortened(p, home), on),
        StatusView::Missing(p) => style::secondary_of(paths::shortened(p, home), on) + " "@
            + style::dim_of("(missing)"@, on),
        StatusView::Absent => if merged > 0 {
            counts_part(total, merged, on)
        } else if total > 1 {
            style::secondary_of(text::decimal(total), on) + " "@ + style::dim_of("branches"@, on)
        } else {
            style::dim_of("(no worktree)"@, on)
        },
    }
}

fn make_right_slot(s: &Stack, status: &WorktreeStatus, home: Option<&str>, on: bool) -> (r: String)
    ensures
        r@ == right_slot(s@, status@, text::opt_str_view(home), on),
{
    let total: usize = s.branches.len();
    assert(total == s@.branches.len());
    match status {
        WorktreeStatus::Live(p) => style::secondary(
            paths::shorten_home(p.as_str(), home).as_str(),
            on,
        ),
        WorktreeStatus::Missing(p) => text::cat3(
            style::secondary(paths::shorten_home(p.as_str(), home).as_str(), on).as_str(),
            " ",
            style::dim("(missing)", on).as_str(),
        ),
        WorktreeStatus::Absent => {
            let merged: usize = count_branches(s, true);
            let number = style::secondary(text::to_decimal(total as u64).as_str(), on);
            if merged > 0 {
                let word = if total == 1 {
                    "branch"
                } else {
                    "branches"
                };
                let mut t = text::cat3(number.as_str(), " ", style::dim(word, on).as_str());
                t.append("  ");
                t.append(style::secondary(text::to_decimal(merged as u64).as_str(), on).as_str());
                t.append(" ");
                t.append(style::dim("merged", on).as_str());
                t
            } else if total > 1 {
                text::cat3(number.as_str(), " ", style::dim("branches", on).as_str())
            } else {
                style::dim("(no worktree)", on)
            }
        },
    }
}

/// The heading of one stack. The trunk is named where the list's heading does
/// not name it.
pub open spec fn stack_heading(
    s: StackView,
    shared: Option<Seq<char>>,
    status: StatusView,
    home: Option<Seq<char>>,
    on: bool,
) -> Seq<char> {
    style::dim_of(label_of(s), on) + (if shared == Some(s.trunk.branch) {
        ""@
    } else {
        trunk_part(s.trunk.branch, on)
    }) + "        "@ + right_slot(s, status, home, on)
}

fn make_stack_heading(
    s: &Stack,
    shared: &Option<String>,
    status: &WorktreeStatus,
    home: Option<&str>,
    on: bool,
) -> (r: String)
    ensures
        r@ == stack_heading(s@, text::opt_view(*shared), status@, text::opt_str_view(home), on),
{
    let known = match shared {
        Some(t) => text::same(t.as_str(), s.trunk.branch.as_str()),
        None => false,
    };
    let fragment = if known {
        "".to_string()
    } else {
        make_trunk_part(s.trunk.branch.as_str(), on)
    };
    let mut line = text::cat3(
        style::dim(stack_label(s), on).as_str(),
        fragment.as_str(),
        "        ",
    );
    line.append(make_right_slot(s, status, home, on).as_str());
    line
}

/// What a row says of the pull request.
pub open spec fn pr_slot(pr: Option<PullRequestView>, on: bool) -> Seq<char> {
    match pr {
        Some(p) => style::dim_of("#"@ + text::decimal(p.number as nat), on) + "  "@ + state_word(
            p.merged,
            on,
        ),
        None => style::dim_of("(no PR)"@, on),
    }
}

fn make_pr_slot(pr: &Option<PullRequest>, on: bool) -> (r: String)
    ensures
        r@ == pr_slot(
            match *pr {
                Some(p) => Some(p@),
                None => None,
            },
            on,
        ),
{
    match pr {
        Some(p) => text::cat3(
            style::dim(
                text::cat("#", text::to_decimal(p.number).as_str()).as_str(),
                on,
            ).as_str(),
            "  ",
            make_state_word(p.merged, on).as_str(),
        ),
        None => style::dim("(no PR)", on),
    }
}

/// The rows of a branch: its name and pull request; below, under the pull
/// request, its address.
pub open spec fn branch_row(
    b: BranchView,
    prefix: Option<Seq<char>>,
    current: bool,
    widest: usize,
    on: bool,
) -> Seq<Seq<char>> {
    let name = shown_name(prefix, b.branch);
    let marker = if current {
        style::accent_of("●"@, on)
    } else if b.is_merged() {
        style::merged_of("✓"@, on)
    } else {
        style::dim_of("○"@, on)
    };
    let styled = if current {
        style::accent_of(name, on)
    } else if b.is_merged() {
        style::merged_of(name, on)
    } else {
        style::bold_of(name, on)
    };
    seq![
        "  "@ + marker + "  "@ + styled + text::padding(name, widest) + "    "@ + pr_slot(
            b.pull_request,
            on,
        ),
    ] + match b.pull_request {
        Some(p) => seq![
            "  "@ + style::dim_of("│"@, on) + text::blanks((widest + 7) as nat) + style::dim_of(
                p.url,
                on,
            ),
        ],
        None => Seq::empty(),
    }
}

fn push_branch_row(
    b: &Branch,
    prefix: &Option<String>,
    current: bool,
    widest: usize,
    on: bool,
    out: &mut Vec<String>,
)
    ensures
        text::views(final(out)@) == text::views(old(out)@) + branch_row(
            b@,
            text::opt_view(*prefix),
            current,
            widest,
            on,
        ),
{
    let ghost start = text::views(out@);
    let ghost target = branch_row(b@, text::opt_view(*prefix), current, widest, on);
    let name = display_name(prefix, b);
    let marker = if current {
        style::accent(glyph::CURRENT, on)
    } else if b.is_merged() {
        style::merged(glyph::MERGED, on)
    } else {
        style::dim(glyph::ACTIVE, on)
    };
    let styled = if current {
        style::accent(name.as_str(), on)
    } else if b.is_merged() {
        style::merged(name.as_str(), on)
    } else {
        style::bold(name.as_str(), on)
    };
    let mut row = text::cat3("  ", marker.as_str(), "  ");
    row.append(styled.as_str());
    row.append(text::pad(name.as_str(), widest).as_str());
    row.append("    ");
    row.append(make_pr_slot(&b.pull_request, on).as_str());
    assert(row@ =~= target[0]);
    out.push(row);
    assert(text::views(out@) =~= start.push(target[0]));
    if let Some(p) = &b.pull_request {
        let mut line = text::cat3(
            "  ",
            style::dim(glyph::CHAIN, on).as_str(),
            text::make_blanks(widest).as_str(),
        );
        line.append(text::make_blanks(7).as_str());
        line.append(style::dim(p.url.as_str(), on).as_str());
        let ghost model = line@;
        assert(text::blanks(widest as nat) + text::blanks(7) =~= text::blanks(
            (widest + 7) as nat,
        ));
        assert(model =~= target[1]);
        out.push(line);
        assert(text::views(out@) =~= start.push(target[0]).push(model));
        assert(target =~= seq![target[0], model]);
    } else {
        assert(target =~= seq![target[0]]);
    }
    assert(text::views(out@) =~= start + target);
}

/// The rows of the first `n` branches, the topmost first.
pub open spec fn branch_rows(s: StackView, current: Option<Seq<char>>, n: int, on: bool) -> Seq<
    Seq<char>,
>
    decreases n,
{
    if n <= 0 {
        Seq::empty()
    } else {
        let b = s.branches[n - 1];
        branch_row(
            b,
            s.prefix,
            current == Some(b.branch),
            widest_name(s, s.branches.len() as int),
            on,
        ) + branch_rows(s, current, n - 1, on)
    }
}

fn push_branch_rows(s: &Stack, current: Option<&str>, on: bool, out: &mut Vec<String>)
    ensures
        text::views(final(out)@) == text::views(old(out)@) + branch_rows(
            s@,
            text::opt_str_view(current),
            s.branches@.len() as int,
            on,
        ),
{
    let ghost start = text::views(out@);
    let ghost cv = text::opt_str_view(current);
    let widest: usize = find_widest(s);
    let n: usize = s.branches.len();
    let ghost total = branch_rows(s@, cv, n as int, on);
    let mut i: usize = n;
    while i > 0
        invariant
            i <= n,
            n == s.branches@.len(),
            cv == text::opt_str_view(current),
            widest == widest_name(s@, n as int),
            total == branch_rows(s@, cv, n as int, on),
            text::views(out@) + branch_rows(s@, cv, i as int, on) == start + total,
        decreases i,
    {
        let ghost before = text::views(out@);
        let ghost rest = branch_rows(s@, cv, i - 1, on);
        i = i - 1;
        let b = &s.branches[i];
        assert(s@.branches[i as int] == b@);
        let here = is_current(b.branch.as_str(), current);
        push_branch_row(b, &s.prefix, here, widest, on, out);
        let ghost row = branch_row(b@, s@.prefix, here, widest, on);
        assert(before + (row + rest) =~= (before + row) + rest);
    }
    assert(text::views(out@) + Seq::<Seq<char>>::empty() =~= text::views(out@));
}

/// The lines of one stack: heading, branches from the top down, trunk.
pub open spec fn stack_lines(
    s: StackView,
    shared: Option<Seq<char>>,
    current: Option<Seq<char>>,
    status: StatusView,
    home: Option<Seq<char>>,
    on: bool,
) -> Seq<Seq<char>> {
    seq![stack_heading(s, shared, status, home, on), ""@] + branch_rows(
        s,
        current,
        s.branches.len() as int,
        on,
    ) + seq![
        "  "@ + style::dim_of("└─"@, on) + " "@ + style::dim_of(s.trunk.branch, on),
        ""@,
    ]
}

fn push_stack_lines(
    s: &Stack,
    shared: &Option<String>,
    current: Option<&str>,
    status: &WorktreeStatus,
    home: Option<&str>,
    on: bool,
    out: &mut Vec<String>,
)
    ensures
        text::views(final(out)@) == text::views(old(out)@) + stack_lines(
            s@,
            text::opt_view(*shared),
            text::opt_str_view(current),
            status@,
            text::opt_str_view(home),
            on,
        ),
{
    let ghost start = text::views(out@);
    let head = make_stack_heading(s, shared, status, home, on);
    let ghost hv = head@;
    out.push(head);
    out.push("".to_string());
    assert(text::views(out@) =~= start + seq![hv, ""@]);
    push_branch_rows(s, current, on, out);
    let ghost mid = text::views(out@);
    let mut foot = text::cat3("  ", style::dim(glyph::ELBOW, on).as_str(), " ");
    foot.append(style::dim(s.trunk.branch.as_str(), on).as_str());
    let ghost fv = foot@;
    out.push(foot);
    out.push("".to_string());
    assert(text::views(out@) =~= mid + seq![fv, ""@]);
    assert(text::views(out@) =~= start + stack_lines(
        s@,
        text::opt_view(*shared),
        text::opt_str_view(current),
        status@,
        text::opt_str_view(home),
        on,
    ));
}

/// The lines of each stack.
pub open spec fn blocks(
    stacks: Seq<StackView>,
    current: Option<Seq<char>>,
    worktrees: Seq<WorktreeView>,
    cwd: Seq<char>,
    home: Option<Seq<char>>,
    on: bool,
) -> Seq<Seq<Seq<char>>> {
    stacks.map_values(
        |s: StackView|
            stack_lines(
                s,
                shared_trunk(stacks),
                current,
                s.worktree(worktrees, cwd),
                home,
                on,
            ),
    )
}

/// The list as text.
pub open spec fn list_text(
    file: StackFileView,
    current: Option<Seq<char>>,
    worktrees: Seq<WorktreeView>,
    cwd: Seq<char>,
    home: Option<Seq<char>>,
    on: bool,
) -> Seq<Seq<char>> {
    if file.stacks.len() == 0 {
        seq!["  "@ + style::dim_of("no stacks tracked for "@ + file.repository, on)]
    } else {
        seq![list_heading(file, on), ""@] + seqs::joined(
            blocks(file.stacks, current, worktrees, cwd, home, on),
        )
    }
}

/// The list as text. `home` is the home directory, where it is known.
pub fn emit_text(
    file: &StackFile,
    current: Option<&str>,
    worktrees: &Vec<Worktree>,
    cwd: &str,
    home: Option<&str>,
    on: bool,
) -> (r: Vec<String>)
    ensures
        text::views(r@) == list_text(
            file@,
            text::opt_str_view(current),
            worktree_views(worktrees@),
            cwd@,
            text::opt_str_view(home),
            on,
        ),
{
    let ghost cv = text::opt_str_view(current);
    let ghost wv = worktree_views(worktrees@);
    let ghost hv = text::opt_str_view(home);
    let mut out: Vec<String> = Vec::new();
    assert(file@.stacks.len() == file.stacks@.len());
    if file.stacks.len() == 0 {
        let note = text::cat("no stacks tracked for ", file.repository.as_str());
        out.push(text::cat("  ", style::dim(note.as_str(), on).as_str()));
        assert(text::views(out@) =~= list_text(file@, cv, wv, cwd@, hv, on));
        return out;
    }
    let shared = find_shared_trunk(file);
    out.push(make_list_heading(file, &shared, on));
    out.push("".to_string());
    let ghost head = seq![list_heading(file@, on), ""@];
    let ghost all = blocks(file@.stacks, cv, wv, cwd@, hv, on);
    let mut i: usize = 0;
    assert(all.take(0) =~= Seq::<Seq<Seq<char>>>::empty());
    assert(text::views(out@) =~= head + seqs::joined(all.take(0)));
    while i < file.stacks.len()
        invariant
            i <= file.stacks@.len(),
            cv == text::opt_str_view(current),
            wv == worktree_views(worktrees@),
            hv == text::opt_str_view(home),
            text::opt_view(shared) == shared_trunk(file@.stacks),
            all == blocks(file@.stacks, cv, wv, cwd@, hv, on),
            all.len() == file.stacks@.len(),
            text::views(out@) == head + seqs::joined(all.take(i as int)),
        decreases file.stacks.len() - i,
    {
        let s = &file.stacks[i];
        assert(file@.stacks[i as int] == s@);
        let status = s.resolve_worktree(worktrees, cwd);
        push_stack_lines(s, &shared, current, &status, home, on, &mut out);
        proof {
            assert(all.take(i + 1) =~= all.take(i as int).push(all[i as int]));
            seqs::lemma_joined_push(all.take(i as int), all[i as int]);
            assert(text::views(out@) =~= head + seqs::joined(all.take(i + 1)));
        }
        i = i + 1;
    }
    assert(all.take(file.stacks.len() as int) =~= all);
    out
}

/// A stack as data is what is recorded of it: every branch from the bottom up,
/// with its pull request, whether it is merged and whether it is checked out. It is
/// the current stack exactly where it holds the current branch, and has as many
/// active branches as are not merged.
pub proof fn law_listing_tells_record(
    s: StackView,
    current: Option<Seq<char>>,
    status: StatusView,
    i: int,
)
    requires
        0 <= i < s.branches.len(),
    ensures
        ({
            let out = summarised(s, current, status);
            let b = s.branches[i];
            let x = out.branches[i];
            &&& out.prefix == s.prefix && out.trunk == s.trunk.branch
            &&& out.branch_count == s.branches.len() && out.branches.len() == s.branches.len()
            &&& out.active_count == s.active().len()
            &&& out.is_current <==> (current matches Some(c) && exists|j: int|
                0 <= j < s.branches.len() && (#[trigger] s.branches[j]).branch == c)
            &&& status is Live ==> out.worktree == Some(status->Live_0) && !out.worktree_missing
            &&& status is Missing ==> out.worktree == Some(status->Missing_0)
                && out.worktree_missing
            &&& status is Absent ==> out.worktree is None && !out.worktree_missing
            &&& x.name == b.branch
            &&& x.is_current <==> current == Some(b.branch)
            &&& x.is_merged <==> (b.pull_request matches Some(p) && p.merged)
            &&& x.pr is Some <==> b.pull_request is Some
            &&& b.pull_request matches Some(p) ==> (x.pr matches Some(q) && q.number == p.number
                && q.url == p.url && q.state == (if p.merged {
                "MERGED"@
            } else {
                "OPEN"@
            }))
        }),
{
    lemma_active_counted(s, s.branches.len() as int);
    assert(s.branches.take(s.branches.len() as int) =~= s.branches);
}

proof fn lemma_active_counted(s: StackView, n: int)
    requires
        0 <= n <= s.branches.len(),
    ensures
        count_of(s, false, n) == s.branches.take(n).filter(live()).len(),
    decreases n,
{
    if n > 0 {
        lemma_active_counted(s, n - 1);
        seqs::lemma_filter_step(s.branches, n - 1, live());
    } else {
        reveal(Seq::filter);
    }
}

#[verifier::rlimit(40)]
proof fn lemma_branch_row(
    b: BranchView,
    prefix: Option<Seq<char>>,
    current: bool,
    widest: usize,
    on: bool,
)
    ensures
        ({
            let lines = branch_row(b, prefix, current, widest, on);
            &&& lines.len() > 0
            &&& row_for(lines[0], shown_name(prefix, b.branch), owed(b, current))
            &&& b.pull_request matches Some(p) ==> lines.len() == 2 && text::has_part(
                lines[1],
                p.url,
            )
        }),
{
    let name = shown_name(prefix, b.branch);
    let merged = b.is_merged();
    let mark = if current {
        "●"@
    } else if merged {
        "✓"@
    } else {
        "○"@
    };
    let marker = if current {
        style::accent_of("●"@, on)
    } else if merged {
        style::merged_of("✓"@, on)
    } else {
        style::dim_of("○"@, on)
    };
    let shown = if current {
        style::accent_of(name, on)
    } else if merged {
        style::merged_of(name, on)
    } else {
        style::bold_of(name, on)
    };
    let lines = branch_row(b, prefix, current, widest, on);
    let line = lines[0];
    let pad = text::padding(name, widest);
    let pr = pr_slot(b.pull_request, on);
    style::law_styled_holds_text("●"@, "1;38;5;81"@, on);
    style::law_styled_holds_text("✓"@, "38;5;246"@, on);
    style::law_styled_holds_text("○"@, "38;5;244"@, on);
    style::law_styled_holds_text(name, "1;38;5;81"@, on);
    style::law_styled_holds_text(name, "38;5;246"@, on);
    style::law_styled_holds_text(name, "1"@, on);
    lemma_pr_slot(b.pull_request, on);
    text::lemma_row_parts("  "@, marker, "  "@, shown, pad, "    "@, pr);
    assert(line == "  "@ + marker + "  "@ + shown + pad + "    "@ + pr);
    assert(text::has_part(line, mark));
    if let Some(p) = b.pull_request {
        style::law_styled_holds_text(p.url, "38;5;244"@, on);
        text::lemma_part_right(
            "  "@ + style::dim_of("│"@, on) + text::blanks((widest + 7) as nat),
            style::dim_of(p.url, on),
            p.url,
        );
    }
    let parts = owed(b, current);
    assert(parts[0] == mark);
    assert forall|k: int| 0 <= k < parts.len() implies text::has_part(line, #[trigger] parts[k]) by {
        if k > 0 {
            assert(text::has_part(pr, parts[k]));
        }
    }
}

proof fn lemma_pr_slot(pr: Option<PullRequestView>, on: bool)
    ensures
        pr matches Some(p) ==> text::has_part(
            pr_slot(pr, on),
            "#"@ + text::decimal(p.number as nat),
        ) && text::has_part(
            pr_slot(pr, on),
            if p.merged {
                "merged"@
            } else {
                "open"@
            },
        ),
        pr is None ==> text::has_part(pr_slot(pr, on), "(no PR)"@),
{
    style::law_styled_holds_text("(no PR)"@, "38;5;244"@, on);
    style::law_styled_holds_text("open"@, "38;5;108"@, on);
    style::law_styled_holds_text("merged"@, "38;5;246"@, on);
    if let Some(p) = pr {
        let number = "#"@ + text::decimal(p.number as nat);
        let first = style::dim_of(number, on);
        let word = state_word(p.merged, on);
        style::law_styled_holds_text(number, "38;5;244"@, on);
        text::lemma_part_left(first, "  "@, number);
        text::lemma_part_left(first + "  "@, word, number);
        text::lemma_part_right(
            first + "  "@,
            word,
            if p.merged {
                "merged"@
            } else {
                "open"@
            },
        );
    }
}

/// What a row has to say of a branch: the mark of the current one, else of a
/// merged one, else of an open one; its pull request and state, or that it has
/// none.
pub open spec fn owed(b: BranchView, current: bool) -> Seq<Seq<char>> {
    seq![
        if current {
            "●"@
        } else if b.pull_request matches Some(p) && p.merged {
            "✓"@
        } else {
            "○"@
        },
    ] + (match b.pull_request {
        Some(p) => seq![
            "#"@ + text::decimal(p.number as nat),
            if p.merged {
                "merged"@
            } else {
                "open"@
            },
        ],
        None => seq!["(no PR)"@],
    })
}

/// The lines of a stack tell every branch on a line of its own, with the mark of
/// the current one and its pull request, whose address is told too.
pub proof fn law_list_tells_every_branch(
    s: StackView,
    current: Option<Seq<char>>,
    n: int,
    on: bool,
    i: int,
) -> (l: int)
    requires
        0 <= i < n <= s.branches.len(),
    ensures
        ({
            let b = s.branches[i];
            let lines = branch_rows(s, current, n, on);
            &&& 0 <= l < lines.len()
            &&& row_for(
                lines[l],
                shown_name(s.prefix, b.branch),
                owed(b, current == Some(b.branch)),
            )
            &&& b.pull_request matches Some(p) ==> told(lines, p.url)
        }),
    decreases n,
{
    let top = s.branches[n - 1];
    let row = branch_row(
        top,
        s.prefix,
        current == Some(top.branch),
        widest_name(s, s.branches.len() as int),
        on,
    );
    let rest = branch_rows(s, current, n - 1, on);
    let lines = branch_rows(s, current, n, on);
    assert(lines =~= row + rest);
    if i == n - 1 {
        lemma_branch_row(
            top,
            s.prefix,
            current == Some(top.branch),
            widest_name(s, s.branches.len() as int),
            on,
        );
        assert(lines[0] == row[0]);
        if top.pull_request is Some {
            assert(lines[1] == row[1]);
        }
        0
    } else {
        let k = law_list_tells_every_branch(s, current, n - 1, on, i);
        assert(lines[row.len() + k] == rest[k]);
        if let Some(p) = s.branches[i].pull_request {
            let m = choose|m: int| 0 <= m < rest.len() && text::has_part(#[trigger] rest[m], p.url);
            assert(lines[row.len() + m] == rest[m]);
        }
        row.len() + k
    }
}

/// The trunk that a list names for all stacks is the trunk of each, and none is
/// named where two differ.
pub proof fn law_shared_trunk_is_everyones(stacks: Seq<StackView>)
    requires
        stacks.len() > 0,
    ensures
        match shared_trunk(stacks) {
            Some(t) => forall|i: int|
                0 <= i < stacks.len() ==> (#[trigger] stacks[i]).trunk.branch == t,
            None => exists|i: int, j: int|
                0 <= i < stacks.len() && 0 <= j < stacks.len() && (
                #[trigger] stacks[i]).trunk.branch != (#[trigger] stacks[j]).trunk.branch,
        },
{
    if shared_trunk(stacks) is None {
        let i = choose|i: int|
            0 <= i < stacks.len() && (#[trigger] stacks[i]).trunk.branch
                != stacks[0].trunk.branch;
        assert(stacks[i].trunk.branch != stacks[0].trunk.branch);
    }
}

/// The heading of a stack tells where its worktree is, and that it is missing where
/// its directory is gone; and its trunk, unless the list does.
pub proof fn law_heading_tells_worktree(
    s: StackView,
    shared: Option<Seq<char>>,
    status: StatusView,
    home: Option<Seq<char>>,
    on: bool,
)
    ensures
        ({
            let line = stack_heading(s, shared, status, home, on);
            &&& status matches StatusView::Live(p) ==> text::has_part(
                line,
                paths::shortened(p, home),
            )
            &&& status matches StatusView::Missing(p) ==> text::has_part(
                line,
                paths::shortened(p, home),
            ) && text::has_part(line, "(missing)"@)
            &&& shared != Some(s.trunk.branch) ==> text::has_part(line, s.trunk.branch)
            &&& s.prefix matches Some(p) ==> text::has_part(line, p)
        }),
{
    let label = style::dim_of(label_of(s), on);
    let t = style::secondary_of(s.trunk.branch, on);
    let lead = "  "@ + style::dim_of("·"@, on) + "  "@ + style::dim_of("trunk"@, on) + " "@;
    let fragment = if shared == Some(s.trunk.branch) {
        ""@
    } else {
        trunk_part(s.trunk.branch, on)
    };
    let slot = right_slot(s, status, home, on);
    let start = label + fragment + "        "@;
    style::law_styled_holds_text(label_of(s), "38;5;244"@, on);
    style::law_styled_holds_text(s.trunk.branch, "38;5;250"@, on);
    text::lemma_part_left(label, fragment, label_of(s));
    text::lemma_part_left(label + fragment, "        "@, label_of(s));
    text::lemma_part_left(start, slot, label_of(s));
    if shared != Some(s.trunk.branch) {
        text::lemma_part_right(lead, t, s.trunk.branch);
        text::lemma_part_right(label, fragment, s.trunk.branch);
        text::lemma_part_left(label + fragment, "        "@, s.trunk.branch);
        text::lemma_part_left(start, slot, s.trunk.branch);
    }
    match status {
        StatusView::Live(p) => {
            let short = paths::shortened(p, home);
            style::law_styled_holds_text(short, "38;5;250"@, on);
            text::lemma_part_right(start, slot, short);
        },
        StatusView::Missing(p) => {
            let short = paths::shortened(p, home);
            let first = style::secondary_of(short, on);
            let gone = style::dim_of("(missing)"@, on);
            style::law_styled_holds_text(short, "38;5;250"@, on);
            style::law_styled_holds_text("(missing)"@, "38;5;244"@, on);
            text::lemma_part_left(first, " "@, short);
            text::lemma_part_left(first + " "@, gone, short);
            text::lemma_part_right(first + " "@, gone, "(missing)"@);
            text::lemma_part_right(start, slot, short);
            text::lemma_part_right(start, slot, "(missing)"@);
        },
        StatusView::Absent => {},
    }
}

/// The list tells every stack, in lines of its own, with each of its branches; its
/// heading names the repository and how many stacks there are.
#[verifier::rlimit(40)]
pub proof fn law_list_tells_every_stack(
    file: StackFileView,
    current: Option<Seq<char>>,
    worktrees: Seq<WorktreeView>,
    cwd: Seq<char>,
    home: Option<Seq<char>>,
    on: bool,
    k: int,
    i: int,
) -> (r: (int, int))
    requires
        0 <= k < file.stacks.len(),
        0 <= i < file.stacks[k].branches.len(),
    ensures
        ({
            let s = file.stacks[k];
            let b = s.branches[i];
            let lines = list_text(file, current, worktrees, cwd, home, on);
            &&& 0 < r.0 < lines.len() && 0 < r.1 < lines.len()
            &&& lines[r.0] == stack_heading(
                s,
                shared_trunk(file.stacks),
                s.worktree(worktrees, cwd),
                home,
                on,
            )
            &&& row_for(
                lines[r.1],
                shown_name(s.prefix, b.branch),
                owed(b, current == Some(b.branch)),
            )
            &&& text::has_part(lines[0], file.repository)
            &&& text::has_part(
                lines[0],
                text::decimal(file.stacks.len()) + if file.stacks.len() == 1 {
                    " stack"@
                } else {
                    " stacks"@
                },
            )
        }),
{
    let s = file.stacks[k];
    let n = s.branches.len() as int;
    let shared = shared_trunk(file.stacks);
    let status = s.worktree(worktrees, cwd);
    let parts = blocks(file.stacks, current, worktrees, cwd, home, on);
    let own = stack_lines(s, shared, current, status, home, on);
    let rows = branch_rows(s, current, n, on);
    let lines = list_text(file, current, worktrees, cwd, home, on);
    assert(parts[k] == own);
    let l = law_list_tells_every_branch(s, current, n, on, i);
    assert(own[0] == stack_heading(s, shared, status, home, on));
    assert(own[2 + l] == rows[l]);
    let x = seqs::lemma_joined_holds(parts, k, 0);
    let y = seqs::lemma_joined_holds(parts, k, 2 + l);
    assert(lines[2 + x] == own[0] && lines[2 + y] == own[2 + l]);
    let count = text::decimal(file.stacks.len()) + if file.stacks.len() == 1 {
        " stack"@
    } else {
        " stacks"@
    };
    let name = style::bold_of(file.repository, on);
    let number = style::dim_of(count, on);
    let dot = style::dim_of("·"@, on);
    let tail = match shared {
        Some(t) => trunk_part(t, on),
        None => ""@,
    };
    style::law_styled_holds_text(file.repository, "1"@, on);
    style::law_styled_holds_text(count, "38;5;244"@, on);
    let start = "  "@ + name + "  "@ + dot + "  "@;
    text::lemma_part_right("  "@, name, file.repository);
    text::lemma_part_left("  "@ + name, "  "@, file.repository);
    text::lemma_part_left("  "@ + name + "  "@, dot, file.repository);
    text::lemma_part_left("  "@ + name + "  "@ + dot, "  "@, file.repository);
    text::lemma_part_left(start, number, file.repository);
    text::lemma_part_left(start + number, tail, file.repository);
    text::lemma_part_right(start, number, count);
    text::lemma_part_left(start + number, tail, count);
    assert(lines[0] == list_heading(file, on));
    (2 + x, 2 + y)
}

} // verus!
