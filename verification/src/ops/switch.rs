//! `stack switch`: what the branch picker offers.

use vstd::prelude::*;

use crate::domain::error::{Fault, StackError};
use crate::domain::stack::{
    branch_views, prefixed_name, Branch, BranchView, PullRequestView, Stack, StackFile,
    StackView,
};
use crate::style::glyph;
use crate::text;

verus! {

/// A branch name without the stack's prefix, where it has it.
pub open spec fn shown_name(prefix: Option<Seq<char>>, name: Seq<char>) -> Seq<char> {
    match prefix {
        Some(p) => match text::after_prefix(name, p) {
            Some(rest) => match text::after_prefix(rest, "/"@) {
                Some(leaf) => leaf,
                None => name,
            },
            None => name,
        },
        None => name,
    }
}

/// A branch name without the stack's prefix, where it has it.
pub fn strip_name(prefix: &Option<String>, name: &str) -> (r: String)
    ensures
        r@ == shown_name(text::opt_view(*prefix), name@),
{
    if let Some(p) = prefix {
        if let Some(rest) = text::strip_prefix(name, p.as_str()) {
            if let Some(leaf) = text::strip_prefix(rest.as_str(), "/") {
                return leaf;
            }
        }
    }
    name.to_string()
}

/// What a branch is called within its stack.
pub fn display_name(prefix: &Option<String>, b: &Branch) -> (r: String)
    ensures
        r@ == shown_name(text::opt_view(*prefix), b@.branch),
{
    strip_name(prefix, b.branch.as_str())
}

/// A name that was put under the prefix is shown as it was.
pub proof fn law_prefix_is_undone(prefix: Option<Seq<char>>, name: Seq<char>)
    ensures
        shown_name(prefix, prefixed_name(prefix, name)) == name,
{
    if let Some(p) = prefix {
        let full = prefixed_name(prefix, name);
        assert(p.is_prefix_of(full));
        let rest = full.skip(p.len() as int);
        assert(rest =~= "/"@ + name);
        assert("/"@.is_prefix_of(rest));
        assert(rest.skip("/"@.len() as int) =~= name);
    }
}

/// The width of the longest of the first `n` names shown.
pub open spec fn widest_name(stack: StackView, n: int) -> usize
    decreases n,
{
    if n <= 0 {
        0
    } else {
        let w = widest_name(stack, n - 1);
        let k = text::width(shown_name(stack.prefix, stack.branches[n - 1].branch));
        if k > w {
            k
        } else {
            w
        }
    }
}

/// The width of the longest name shown.
pub(crate) fn find_widest(stack: &Stack) -> (r: usize)
    ensures
        r == widest_name(stack@, stack.branches@.len() as int),
{
    let mut w: usize = 0;
    let mut i: usize = 0;
    while i < stack.branches.len()
        invariant
            i <= stack.branches@.len(),
            w == widest_name(stack@, i as int),
        decreases stack.branches.len() - i,
    {
        assert(stack@.branches[i as int] == stack.branches@[i as int]@);
        let name = display_name(&stack.prefix, &stack.branches[i]);
        let k: usize = name.as_str().len();
        if k > w {
            w = k;
        }
        i = i + 1;
    }
    w
}

/// One option of the picker.
#[derive(Debug)]
pub struct BranchChoice {
    pub branch_name: String,
    pub label: String,
}

#[verifier::ext_equal]
pub struct ChoiceView {
    pub branch_name: Seq<char>,
    pub label: Seq<char>,
}

impl View for BranchChoice {
    type V = ChoiceView;

    open spec fn view(&self) -> ChoiceView {
        ChoiceView { branch_name: self.branch_name@, label: self.label@ }
    }
}

/// The models of a list of options.
pub open spec fn choice_views(list: Seq<BranchChoice>) -> Seq<ChoiceView> {
    list.map_values(|c: BranchChoice| c@)
}

/// The state of a pull request, in words.
pub open spec fn state_words(pr: Option<PullRequestView>) -> Seq<char> {
    match pr {
        Some(p) => "#"@ + text::decimal(p.number as nat) + if p.merged {
            " merged"@
        } else {
            " open"@
        },
        None => "(no PR)"@,
    }
}

/// The option that a branch is.
pub open spec fn choice_of(
    b: BranchView,
    current: Seq<char>,
    prefix: Option<Seq<char>>,
    widest: usize,
) -> ChoiceView {
    let marker = if b.branch == current {
        "●"@
    } else if b.is_merged() {
        "✓"@
    } else {
        "○"@
    };
    let name = shown_name(prefix, b.branch);
    ChoiceView {
        branch_name: b.branch,
        label: marker + "  "@ + name + text::padding(name, widest) + "    "@ + state_words(
            b.pull_request,
        ),
    }
}

impl BranchChoice {
    /// The option that a branch is: marker, name, state of its pull request.
    pub fn from_branch(b: &Branch, current: &str, prefix: &Option<String>, widest: usize) -> (r:
        Self)
        ensures
            r@ == choice_of(b@, current@, text::opt_view(*prefix), widest),
    {
        let marker = if text::same(b.branch.as_str(), current) {
            glyph::CURRENT
        } else if b.is_merged() {
            glyph::MERGED
        } else {
            glyph::ACTIVE
        };
        let name = display_name(prefix, b);
        let state = match &b.pull_request {
            Some(p) => text::cat3(
                "#",
                text::to_decimal(p.number).as_str(),
                if p.merged {
                    " merged"
                } else {
                    " open"
                },
            ),
            None => "(no PR)".to_string(),
        };
        let mut label = text::cat3(marker, "  ", name.as_str());
        label.append(text::pad(name.as_str(), widest).as_str());
        label.append("    ");
        label.append(state.as_str());
        BranchChoice { branch_name: b.branch.clone(), label }
    }
}

/// The options: the branches of the stack, the topmost first.
pub open spec fn choices_of(stack: StackView, current: Seq<char>) -> Seq<ChoiceView> {
    let w = widest_name(stack, stack.branches.len() as int);
    Seq::new(
        stack.branches.len(),
        |i: int|
            choice_of(
                stack.branches[stack.branches.len() - 1 - i],
                current,
                stack.prefix,
                w,
            ),
    )
}

/// What the picker shows: the options, where the cursor starts, the heading.
#[derive(Debug)]
pub struct Picker {
    pub options: Vec<BranchChoice>,
    pub starting_index: usize,
    pub header: String,
}

/// Whether the cursor starts on the current branch, as first offered, or on
/// the first option where it is not offered.
pub open spec fn starts_at(options: Seq<ChoiceView>, current: Seq<char>, at: int) -> bool {
    ||| {
        &&& 0 <= at < options.len()
        &&& options[at].branch_name == current
        &&& forall|j: int| 0 <= j < at ==> (#[trigger] options[j]).branch_name != current
    }
    ||| {
        &&& at == 0
        &&& forall|j: int| 0 <= j < options.len() ==> (#[trigger] options[j]).branch_name != current
    }
}

/// Whether `r` is the picker for a stack: an error where it has no branches.
pub open spec fn shows(
    stack: StackView,
    current: Seq<char>,
    r: Result<Picker, StackError>,
) -> bool {
    if stack.branches.len() == 0 {
        r matches Err(e) && e@ == Fault::Other("stack has no branches"@)
    } else {
        &&& r matches Ok(p)
        &&& choice_views(p.options@) == choices_of(stack, current)
        &&& starts_at(choice_views(p.options@), current, p.starting_index as int)
        &&& p.header@ == (match stack.prefix {
            Some(x) => "Switch branch in "@ + x + ":"@,
            None => "Switch branch:"@,
        })
    }
}

/// What the picker shows for a stack: an error where it has no branches.
pub fn picker(stack: &Stack, current: &str) -> (r: Result<Picker, StackError>)
    ensures
        shows(stack@, current@, r),
{
    let ghost all = stack@.branches;
    let n: usize = stack.branches.len();
    if n == 0 {
        return Err(StackError::Other("stack has no branches".to_string()));
    }
    let widest: usize = find_widest(stack);
    let ghost target = choices_of(stack@, current@);
    let mut options: Vec<BranchChoice> = Vec::new();
    let mut start: Option<usize> = None;
    let mut i: usize = 0;
    assert(choice_views(options@) =~= target.take(0));
    while i < n
        invariant
            i <= n,
            n == stack.branches@.len(),
            all == branch_views(stack.branches@),
            all == stack@.branches,
            widest == widest_name(stack@, n as int),
            target == choices_of(stack@, current@),
            choice_views(options@) == target.take(i as int),
            match start {
                Some(k) => k < i && target[k as int].branch_name == current@ && forall|j: int|
                    0 <= j < k ==> (#[trigger] target[j]).branch_name != current@,
                None => forall|j: int|
                    0 <= j < i ==> (#[trigger] target[j]).branch_name != current@,
            },
        decreases n - i,
    {
        let ghost before = choice_views(options@);
        let b = &stack.branches[n - 1 - i];
        assert(all[n - 1 - i] == b@);
        let choice = BranchChoice::from_branch(b, current, &stack.prefix, widest);
        let ghost model = choice@;
        assert(model == target[i as int]);
        if start.is_none() && text::same(b.branch.as_str(), current) {
            start = Some(i);
        }
        options.push(choice);
        assert(choice_views(options@) =~= before.push(model));
        assert(choice_views(options@) =~= target.take(i + 1));
        i = i + 1;
    }
    assert(choice_views(options@) =~= target);
    let starting_index: usize = match start {
        Some(k) => k,
        None => 0,
    };
    let header = match &stack.prefix {
        Some(p) => text::cat3("Switch branch in ", p.as_str(), ":"),
        None => "Switch branch:".to_string(),
    };
    Ok(Picker { options, starting_index, header })
}

/// What the picker shows on the current branch: the stack that holds it.
/// `current` is `None` for a detached head.
pub fn current_picker(file: &StackFile, current: Option<&str>) -> (r: Result<Picker, StackError>)
    ensures
        match current {
            None => r matches Err(e) && e@ == Fault::Other(
                "detached HEAD; check out a branch first"@,
            ),
            Some(c) => match file@.current(c@) {
                Ok(stack) => shows(stack, c@, r),
                Err(f) => r matches Err(e) && e@ == f,
            },
        },
{
    match current {
        None => Err(
            StackError::Other("detached HEAD; check out a branch first".to_string()),
        ),
        Some(c) => match file.current_stack(c) {
            Ok(stack) => picker(stack, c),
            Err(e) => Err(e),
        },
    }
}

/// The picker offers every branch of the stack, the topmost first. Its cursor
/// starts on the current branch where that is offered. A label starts with the
/// marker of the current branch, else of a merged one, else of an open one, and
/// ends with the state of the pull request.
#[verifier::rlimit(40)]
pub proof fn law_picker_offers_branches(stack: StackView, current: Seq<char>, p: Picker, i: int)
    requires
        shows(stack, current, Ok(p)),
        0 <= i < stack.branches.len(),
    ensures
        p.options@.len() == stack.branches.len(),
        ({
            let b = stack.branches[stack.branches.len() - 1 - i];
            let o = p.options@[i];
            &&& o.branch_name@ == b.branch
            &&& b.branch == current ==> "●"@.is_prefix_of(o.label@)
            &&& b.branch != current && (b.pull_request matches Some(q) && q.merged)
                ==> "✓"@.is_prefix_of(o.label@) && " merged"@.is_suffix_of(o.label@)
            &&& b.branch != current && !(b.pull_request matches Some(q) && q.merged)
                ==> "○"@.is_prefix_of(o.label@)
            &&& b.pull_request is None ==> "(no PR)"@.is_suffix_of(o.label@)
            &&& b.pull_request matches Some(q) ==> ("#"@ + text::decimal(q.number as nat) + (
            if q.merged {
                " merged"@
            } else {
                " open"@
            })).is_suffix_of(o.label@)
        }),
        p.starting_index < p.options@.len(),
        stack.has(current) ==> p.options@[p.starting_index as int].branch_name@ == current,
{
    let options = choice_views(p.options@);
    assert(options.len() == p.options@.len());
    let b = stack.branches[stack.branches.len() - 1 - i];
    let o = p.options@[i];
    assert(options[i] == o@);
    let w = widest_name(stack, stack.branches.len() as int);
    assert(o@ == choice_of(b, current, stack.prefix, w));
    let name = shown_name(stack.prefix, b.branch);
    let marker = if b.branch == current {
        "●"@
    } else if b.is_merged() {
        "✓"@
    } else {
        "○"@
    };
    let rest = "  "@ + name + text::padding(name, w) + "    "@ + state_words(b.pull_request);
    assert(o.label@ =~= marker + rest);
    let start = marker + "  "@ + name + text::padding(name, w) + "    "@;
    let end = state_words(b.pull_request);
    assert(o.label@ =~= start + end);
    assert(end.is_suffix_of(o.label@)) by {
        assert(o.label@.subrange(o.label@.len() - end.len(), o.label@.len() as int) =~= end);
    }
    assert(marker.is_prefix_of(o.label@)) by {
        assert(o.label@.subrange(0, marker.len() as int) =~= marker);
    }
    if b.is_merged() {
        let t = " merged"@;
        assert(end.subrange(end.len() - t.len(), end.len() as int) =~= t);
        assert(o.label@.subrange(o.label@.len() - t.len(), o.label@.len() as int) =~= t);
    }
    if stack.has(current) {
        let k = choose|k: int|
            0 <= k < stack.branches.len() && (#[trigger] stack.branches[k]).branch == current;
        let at = stack.branches.len() - 1 - k;
        assert(options[at] == choice_of(stack.branches[k], current, stack.prefix, w));
        assert(options[at].branch_name == current);
        assert(options[p.starting_index as int] == p.options@[p.starting_index as int]@);
    }
}

/// No name that is shown is wider than the widest, and one is as wide.
pub proof fn law_widest_is_widest(stack: StackView, n: int)
    requires
        0 <= n <= stack.branches.len(),
    ensures
        forall|i: int|
            0 <= i < n ==> text::width(
                shown_name(stack.prefix, (#[trigger] stack.branches[i]).branch),
            ) <= widest_name(stack, n),
        widest_name(stack, n) > 0 ==> exists|i: int|
            0 <= i < n && text::width(
                shown_name(stack.prefix, (#[trigger] stack.branches[i]).branch),
            ) == widest_name(stack, n),
    decreases n,
{
    if n > 0 {
        law_widest_is_widest(stack, n - 1);
        let k = text::width(shown_name(stack.prefix, stack.branches[n - 1].branch));
        if widest_name(stack, n) == k {
            assert(stack.branches[n - 1].branch == stack.branches[n - 1].branch);
        }
    }
}

} // verus!
