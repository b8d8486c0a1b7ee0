//! `stack init`: make a stack of new branches, or out of existing ones.

use vstd::prelude::*;

use crate::domain::error::{Fault, StackError};
use crate::domain::pool::{PoolFile, PoolFileView};
use crate::domain::stack::{
    branch_views, prefixed_name, stack_views, Branch, BranchView, Stack, StackFile, StackFileView,
    StackView, Trunk, TrunkView,
};
use crate::git::{GitEvent, GitOps};
use crate::ops::add::{lemma_unheld, stacks_disjoint, unheld};
use crate::ops::pool::{
    check_unpooled, in_a_pool, law_lookups_tell_holders, law_new_stack_stays_apart, pooled,
    pooled_fault, stacked, tracked_once,
};
use crate::seqs;
use crate::text;

verus! {

#[derive(Debug)]
pub struct InitArgs {
    pub base: Option<String>,
    pub prefix: Option<String>,
    pub adopt: bool,
    pub branches: Vec<String>,
    /// Where the worktree goes, where the user says.
    pub worktree: Option<String>,
    /// Make no worktree: check out in the current one.
    pub no_worktree: bool,
}

/// The names of the branches in full.
pub open spec fn full_names_of(prefix: Option<Seq<char>>, names: Seq<Seq<char>>) -> Seq<
    Seq<char>,
> {
    names.map_values(|n: Seq<char>| prefixed_name(prefix, n))
}

/// The names of the branches in full: an error where none is given.
pub fn full_names(args: &InitArgs) -> (r: Result<Vec<String>, StackError>)
    ensures
        if args.branches@.len() == 0 {
            r matches Err(e) && e@ == Fault::InvalidArgs(
                "supply at least one branch name (this CLI never prompts)"@,
            )
        } else {
            r matches Ok(names) && text::views(names@) == full_names_of(
                text::opt_view(args.prefix),
                text::views(args.branches@),
            )
        },
{
    if args.branches.len() == 0 {
        return Err(
            StackError::InvalidArgs(
                "supply at least one branch name (this CLI never prompts)".to_string(),
            ),
        );
    }
    let ghost target = full_names_of(text::opt_view(args.prefix), text::views(args.branches@));
    let mut out: Vec<String> = Vec::new();
    let mut i: usize = 0;
    assert(text::views(out@) =~= target.take(0));
    while i < args.branches.len()
        invariant
            i <= args.branches@.len(),
            target == full_names_of(text::opt_view(args.prefix), text::views(args.branches@)),
            text::views(out@) == target.take(i as int),
        decreases args.branches.len() - i,
    {
        let ghost before = text::views(out@);
        assert(text::views(args.branches@)[i as int] == args.branches@[i as int]@);
        let name = crate::domain::stack::apply_prefix(&args.prefix, args.branches[i].as_str());
        let ghost model = name@;
        out.push(name);
        assert(text::views(out@) =~= before.push(model));
        assert(text::views(out@) =~= target.take(i + 1));
        i = i + 1;
    }
    assert(target.take(args.branches@.len() as int) =~= target);
    Ok(out)
}

/// The branches that are in a stack already.
pub open spec fn held(file: StackFileView) -> spec_fn(Seq<char>) -> bool {
    |n: Seq<char>| file.containing(n).len() > 0
}

/// Check that no stack holds any of the branches; the first that one does is
/// named.
pub fn check_free(file: &StackFile, names: &Vec<String>) -> (r: Result<(), StackError>)
    ensures
        match seqs::first_where(text::views(names@), held(file@)) {
            Some(k) => r matches Err(e) && e@ == Fault::InvalidArgs(
                "branch `"@ + text::views(names@)[k]
                    + "` is already in a stack; use `stack remove` first"@,
            ),
            None => r is Ok,
        },
{
    let ghost all = text::views(names@);
    let ghost p = held(file@);
    let mut i: usize = 0;
    while i < names.len()
        invariant
            i <= names@.len(),
            all == text::views(names@),
            p == held(file@),
            forall|j: int| 0 <= j < i ==> !p(#[trigger] all[j]),
        decreases names.len() - i,
    {
        assert(all[i as int] == names@[i as int]@);
        let holders = file.stacks_containing(names[i].as_str());
        assert(crate::domain::stack::stack_ref_views(holders@).len() == holders@.len());
        if holders.len() > 0 {
            proof {
                seqs::lemma_first_where(all, p, i as int);
            }
            return Err(
                StackError::InvalidArgs(
                    text::cat3(
                        "branch `",
                        names[i].as_str(),
                        "` is already in a stack; use `stack remove` first",
                    ),
                ),
            );
        }
        i = i + 1;
    }
    proof {
        seqs::lemma_first_where_none(all, p);
    }
    Ok(())
}

/// Check one branch against whether git has it: adopted branches must exist,
/// new ones must not. `known` is what git answered.
pub fn check_known(name: &str, adopt: bool, known: Result<bool, StackError>) -> (r: Result<
    (),
    StackError,
>)
    ensures
        match known {
            Err(f) => r matches Err(e) && e@ == f@,
            Ok(yes) => if adopt && !yes {
                r matches Err(e) && e@ == Fault::InvalidArgs(
                    "branch `"@ + name@
                        + "` does not exist (adopt requires existing branches)"@,
                )
            } else if !adopt && yes {
                r matches Err(e) && e@ == Fault::InvalidArgs(
                    "branch `"@ + name@ + "` already exists; use --adopt to take it over"@,
                )
            } else {
                r is Ok
            },
        },
{
    let yes = match known {
        Err(e) => {
            return Err(e);
        },
        Ok(yes) => yes,
    };
    if adopt && !yes {
        return Err(
            StackError::InvalidArgs(
                text::cat3(
                    "branch `",
                    name,
                    "` does not exist (adopt requires existing branches)",
                ),
            ),
        );
    }
    if !adopt && yes {
        return Err(
            StackError::InvalidArgs(
                text::cat3("branch `", name, "` already exists; use --adopt to take it over"),
            ),
        );
    }
    Ok(())
}

/// Why one branch cannot be used, given what git answered.
pub open spec fn known_fault(adopt: bool, e: GitEvent) -> Option<Fault> {
    match e {
        GitEvent::BranchExists { reply: Err(f), .. } => Some(f@),
        GitEvent::BranchExists { name, reply: Ok(yes) } => if adopt && !yes {
            Some(
                Fault::InvalidArgs(
                    "branch `"@ + name + "` does not exist (adopt requires existing branches)"@,
                ),
            )
        } else if !adopt && yes {
            Some(
                Fault::InvalidArgs(
                    "branch `"@ + name + "` already exists; use --adopt to take it over"@,
                ),
            )
        } else {
            None
        },
        _ => None,
    }
}

/// Whether git was asked for each branch, up to the first that cannot be used.
pub open spec fn checks_follow(names: Seq<Seq<char>>, adopt: bool, checks: Seq<GitEvent>) -> bool {
    &&& checks.len() <= names.len()
    &&& forall|i: int|
        0 <= i < checks.len() ==> (#[trigger] checks[i] matches GitEvent::BranchExists { name, .. }
            && name == names[i])
    &&& forall|i: int| 0 <= i < checks.len() - 1 ==> known_fault(adopt, #[trigger] checks[i]) is None
}

/// Why the last branch asked for cannot be used.
pub open spec fn checks_fault(adopt: bool, checks: Seq<GitEvent>) -> Option<Fault> {
    if checks.len() == 0 {
        None
    } else {
        known_fault(adopt, checks.last())
    }
}

/// Check every branch: adopted ones must exist, new ones must not.
fn check_all<G: GitOps>(git: &mut G, names: &Vec<String>, adopt: bool) -> (r: (
    Result<(), StackError>,
    Ghost<Seq<GitEvent>>,
))
    ensures
        final(git).history() == old(git).history() + r.1@,
        checks_follow(text::views(names@), adopt, r.1@),
        match r.0 {
            Ok(()) => r.1@.len() == names@.len() && checks_fault(adopt, r.1@) is None,
            Err(e) => checks_fault(adopt, r.1@) == Some(e@),
        },
{
    let ghost nv = text::views(names@);
    let ghost mut checks: Seq<GitEvent> = Seq::empty();
    let mut i: usize = 0;
    assert(git.history() =~= old(git).history() + checks);
    while i < names.len()
        invariant
            i <= names@.len(),
            nv == text::views(names@),
            checks.len() == i,
            git.history() == old(git).history() + checks,
            checks_follow(nv, adopt, checks),
            checks_fault(adopt, checks) is None,
        decreases names.len() - i,
    {
        let name = names[i].as_str();
        assert(nv[i as int] == name@);
        let reply = git.branch_exists(name);
        let ghost more = checks.push(GitEvent::BranchExists { name: name@, reply });
        proof {
            assert(git.history() =~= old(git).history() + more);
            assert forall|j: int| 0 <= j < more.len() implies (
            #[trigger] more[j] matches GitEvent::BranchExists { name, .. } && name == nv[j]) by {
                if j < i {
                    assert(more[j] == checks[j]);
                }
            }
            assert forall|j: int| 0 <= j < more.len() - 1 implies known_fault(
                adopt,
                #[trigger] more[j],
            ) is None by {
                assert(more[j] == checks[j]);
                if j == i - 1 {
                    assert(checks.last() == checks[j]);
                }
            }
        }
        let checked = check_known(name, adopt, reply);
        proof {
            checks = more;
        }
        if let Err(e) = checked {
            return (Err(e), Ghost(checks));
        }
        i = i + 1;
    }
    (Ok(()), Ghost(checks))
}

/// Whether `events` find the head of the trunk `t` and check the branches, and
/// `r` is what came of it.
pub open spec fn roots(
    t: Seq<char>,
    file: StackFileView,
    pools: PoolFileView,
    names: Seq<Seq<char>>,
    adopt: bool,
    events: Seq<GitEvent>,
    r: Result<(Trunk, Vec<String>), StackError>,
) -> bool {
    &&& events.len() > 0
    &&& events[0] matches GitEvent::RevParse { rev, reply }
    &&& rev == t
    &&& match reply {
        Err(e) => events.len() == 1 && (r matches Err(f) && f == e),
        Ok(head) => match seqs::first_where(names, held(file)) {
            Some(k) => events.len() == 1 && (r matches Err(e) && e@ == Fault::InvalidArgs(
                "branch `"@ + names[k] + "` is already in a stack; use `stack remove` first"@,
            )),
            None => match seqs::first_where(names, pooled(pools)) {
                Some(k) => events.len() == 1 && (r matches Err(e) && e@ == pooled_fault(names[k])),
                None => {
                    let checks = events.skip(1);
                    &&& checks_follow(names, adopt, checks)
                    &&& match checks_fault(adopt, checks) {
                        Some(f) => r matches Err(e) && e@ == f,
                        None => {
                            &&& checks.len() == names.len()
                            &&& r matches Ok(found)
                            &&& found.0@ == (TrunkView { branch: t, head: head@ })
                            &&& text::views(found.1@) == names
                        },
                    }
                },
            },
        },
    }
}

/// Whether `events` are what is asked before a stack is made, and `r` is what
/// came of it: the trunk and the branches in full, or why there can be no such
/// stack. The trunk is the one named, or else the default branch.
pub open spec fn prepares(
    file: StackFileView,
    pools: PoolFileView,
    args: InitArgs,
    events: Seq<GitEvent>,
    r: Result<(Trunk, Vec<String>), StackError>,
) -> bool {
    let names = full_names_of(text::opt_view(args.prefix), text::views(args.branches@));
    if args.branches@.len() == 0 {
        events.len() == 0 && (r matches Err(e) && e@ == Fault::InvalidArgs(
            "supply at least one branch name (this CLI never prompts)"@,
        ))
    } else {
        match args.base {
            Some(b) => roots(b@, file, pools, names, args.adopt, events, r),
            None => {
                &&& events.len() > 0
                &&& events[0] matches GitEvent::TrunkBranch { reply }
                &&& match reply {
                    Err(e) => events.len() == 1 && (r matches Err(f) && f == e),
                    Ok(t) => roots(t@, file, pools, names, args.adopt, events.skip(1), r),
                }
            },
        }
    }
}

fn root<G: GitOps>(
    git: &mut G,
    file: &StackFile,
    pools: &PoolFile,
    names: Vec<String>,
    adopt: bool,
    trunk: String,
) -> (r: Result<(Trunk, Vec<String>), StackError>)
    ensures
        exists|events: Seq<GitEvent>|
            #[trigger] roots(trunk@, file@, pools@, text::views(names@), adopt, events, r)
                && final(git).history() == old(git).history() + events,
{
    let ghost start = git.history();
    let ghost t = trunk@;
    let ghost nv = text::views(names@);
    let reply = git.rev_parse(trunk.as_str());
    let ghost first = seq![GitEvent::RevParse { rev: t, reply }];
    assert(git.history() =~= start + first);
    let head = match reply {
        Err(e) => {
            assert(roots(t, file@, pools@, nv, adopt, first, Err(e)));
            return Err(e);
        },
        Ok(head) => head,
    };
    if let Err(e) = check_free(file, &names) {
        assert(roots(t, file@, pools@, nv, adopt, first, Err(e)));
        return Err(e);
    }
    if let Err(e) = check_unpooled(pools, &names) {
        assert(roots(t, file@, pools@, nv, adopt, first, Err(e)));
        return Err(e);
    }
    let (checked, Ghost(checks)) = check_all(git, &names, adopt);
    let ghost events = first + checks;
    proof {
        assert(events.skip(1) =~= checks);
        assert(git.history() =~= start + events);
    }
    match checked {
        Err(e) => {
            assert(roots(t, file@, pools@, nv, adopt, events, Err(e)));
            Err(e)
        },
        Ok(()) => {
            let found = (Trunk { branch: trunk, head }, names);
            assert(roots(t, file@, pools@, nv, adopt, events, Ok(found)));
            Ok(found)
        },
    }
}

/// Check that the stack can be made, and find its trunk and the names of its
/// branches in full.
pub fn prepare<G: GitOps>(
    git: &mut G,
    file: &StackFile,
    pools: &PoolFile,
    args: &InitArgs,
) -> (r: Result<(Trunk, Vec<String>), StackError>)
    ensures
        exists|events: Seq<GitEvent>|
            #[trigger] prepares(file@, pools@, *args, events, r)
                && final(git).history() == old(git).history() + events,
{
    let ghost start = git.history();
    let names = match full_names(args) {
        Err(e) => {
            let ghost none = Seq::<GitEvent>::empty();
            assert(git.history() =~= start + none);
            assert(prepares(file@, pools@, *args, none, Err(e)));
            return Err(e);
        },
        Ok(names) => names,
    };
    let ghost nv = text::views(names@);
    match &args.base {
        Some(b) => {
            let trunk = b.clone();
            let r = root(git, file, pools, names, args.adopt, trunk);
            proof {
                let events = choose|events: Seq<GitEvent>|
                    #[trigger] roots(b@, file@, pools@, nv, args.adopt, events, r) && git.history()
                        == start + events;
                assert(prepares(file@, pools@, *args, events, r));
            }
            r
        },
        None => {
            let reply = git.trunk_branch();
            let ghost first = GitEvent::TrunkBranch { reply };
            let ghost mid = git.history();
            match reply {
                Err(e) => {
                    assert(git.history() =~= start + seq![first]);
                    assert(prepares(file@, pools@, *args, seq![first], Err(e)));
                    Err(e)
                },
                Ok(trunk) => {
                    let ghost t = trunk@;
                    let r = root(git, file, pools, names, args.adopt, trunk);
                    proof {
                        let rest = choose|rest: Seq<GitEvent>|
                            #[trigger] roots(t, file@, pools@, nv, args.adopt, rest, r) && git.history()
                                == mid + rest;
                        let events = seq![first] + rest;
                        assert(events.skip(1) =~= rest);
                        assert(git.history() =~= start + events);
                        assert(prepares(file@, pools@, *args, events, r));
                    }
                    r
                },
            }
        },
    }
}

/// Where the branch at `i` starts: at the head of the one before it, or of the
/// trunk.
pub open spec fn start_of(trunk_head: Seq<char>, heads: Seq<Seq<char>>, i: int) -> Seq<char> {
    if i <= 0 {
        trunk_head
    } else {
        heads[i - 1]
    }
}

/// Where the next branch starts: at the head of the last one made, or of the
/// trunk.
pub fn start_point<'a>(trunk_head: &'a str, heads: &'a Vec<String>) -> (r: &'a str)
    ensures
        r@ == start_of(trunk_head@, text::views(heads@), heads@.len() as int),
{
    let n: usize = heads.len();
    if n == 0 {
        trunk_head
    } else {
        assert(text::views(heads@)[n - 1] == heads@[n - 1]@);
        heads[n - 1].as_str()
    }
}

/// The branches of a new stack.
pub open spec fn new_branches(
    names: Seq<Seq<char>>,
    trunk_head: Seq<char>,
    heads: Seq<Seq<char>>,
) -> Seq<BranchView> {
    Seq::new(
        names.len(),
        |i: int|
            BranchView {
                branch: names[i],
                head: Some(heads[i]),
                base: start_of(trunk_head, heads, i),
                pull_request: None,
            },
    )
}

/// A new stack.
pub open spec fn new_stack(
    prefix: Option<Seq<char>>,
    trunk: TrunkView,
    names: Seq<Seq<char>>,
    heads: Seq<Seq<char>>,
) -> StackView {
    StackView {
        prefix,
        trunk,
        branches: new_branches(names, trunk.head, heads),
        last_refreshed_at: None,
    }
}

/// Record a new stack of the branches `names`, whose heads are `heads`.
pub fn record(
    file: &mut StackFile,
    prefix: Option<String>,
    trunk: Trunk,
    names: &Vec<String>,
    heads: &Vec<String>,
)
    requires
        heads@.len() == names@.len(),
    ensures
        final(file)@ == (StackFileView {
            stacks: old(file)@.stacks.push(
                new_stack(
                    text::opt_view(prefix),
                    trunk@,
                    text::views(names@),
                    text::views(heads@),
                ),
            ),
            ..old(file)@
        }),
{
    let ghost nv = text::views(names@);
    let ghost hv = text::views(heads@);
    let ghost target = new_branches(nv, trunk@.head, hv);
    let mut branches: Vec<Branch> = Vec::new();
    let mut i: usize = 0;
    assert(branch_views(branches@) =~= target.take(0));
    while i < names.len()
        invariant
            i <= names@.len(),
            heads@.len() == names@.len(),
            nv == text::views(names@),
            hv == text::views(heads@),
            target == new_branches(nv, trunk@.head, hv),
            branch_views(branches@) == target.take(i as int),
        decreases names.len() - i,
    {
        let ghost before = branch_views(branches@);
        assert(nv[i as int] == names@[i as int]@ && hv[i as int] == heads@[i as int]@);
        let base = if i == 0 {
            trunk.head.clone()
        } else {
            assert(hv[i - 1] == heads@[i - 1]@);
            heads[i - 1].clone()
        };
        let b = Branch {
            branch: names[i].clone(),
            head: Some(heads[i].clone()),
            base,
            pull_request: None,
        };
        let ghost model = b@;
        branches.push(b);
        assert(branch_views(branches@) =~= before.push(model));
        assert(model =~= target[i as int]);
        assert(branch_views(branches@) =~= target.take(i + 1));
        i = i + 1;
    }
    assert(branch_views(branches@) =~= target);
    let ghost before = stack_views(file.stacks@);
    let stack = Stack { prefix, trunk, branches, last_refreshed_at: None };
    let ghost model = stack@;
    file.stacks.push(stack);
    assert(stack_views(file.stacks@) =~= before.push(model));
}

/// A new stack keeps every branch in one stack, once, where no branch is named
/// twice and none was held before.
pub proof fn law_init_tracks_once(
    file: StackFileView,
    prefix: Option<Seq<char>>,
    trunk: TrunkView,
    names: Seq<Seq<char>>,
    heads: Seq<Seq<char>>,
)
    requires
        stacks_disjoint(file.stacks),
        seqs::first_where(names, held(file)) is None,
        forall|i: int, j: int|
            0 <= i < j < names.len() ==> #[trigger] names[i] != #[trigger] names[j],
    ensures
        stacks_disjoint(file.stacks.push(new_stack(prefix, trunk, names, heads))),
{
    let before = file.stacks;
    let s = new_stack(prefix, trunk, names, heads);
    let after = before.push(s);
    seqs::lemma_first_where_is(names, held(file));
    assert forall|k: int| 0 <= k < names.len() implies unheld(before, #[trigger] names[k]) by {
        assert(!held(file)(names[k]));
        lemma_unheld(file, names[k]);
    }
    assert forall|p: int, i: int, q: int, j: int|
        #![trigger after[p].branches[i], after[q].branches[j]]
        0 <= p < after.len() && 0 <= i < after[p].branches.len() && 0 <= q < after.len() && 0 <= j
            < after[q].branches.len() && after[p].branches[i].branch
            == after[q].branches[j].branch implies p == q && i == j by {
        if p < before.len() {
            assert(after[p].branches[i] == before[p].branches[i]);
        }
        if q < before.len() {
            assert(after[q].branches[j] == before[q].branches[j]);
        }
        if p == before.len() && q < before.len() {
            assert(unheld(before, names[i]));
            assert(!before[q].has(names[i]));
        }
        if q == before.len() && p < before.len() {
            assert(unheld(before, names[j]));
            assert(!before[p].has(names[j]));
        }
        if p == before.len() && q == before.len() {
            assert(names[i] == names[j]);
        }
    }
}

/// A stack that `prepare` lets through keeps pools and stacks apart.
pub proof fn law_init_stays_apart(
    file: StackFileView,
    pools: PoolFileView,
    args: InitArgs,
    events: Seq<GitEvent>,
    found: (Trunk, Vec<String>),
    heads: Seq<Seq<char>>,
)
    requires
        prepares(file, pools, args, events, Ok(found)),
        tracked_once(file, pools),
    ensures
        tracked_once(
            (StackFileView {
                stacks: file.stacks.push(
                    new_stack(
                        text::opt_view(args.prefix),
                        found.0@,
                        text::views(found.1@),
                        heads,
                    ),
                ),
                ..file
            }),
            pools,
        ),
{
    let names = text::views(found.1@);
    let s = new_stack(text::opt_view(args.prefix), found.0@, names, heads);
    assert(s.branches.map_values(|b: BranchView| b.branch) =~= names);
    law_new_stack_stays_apart(file, pools, s);
}

/// Each branch of a new stack is based on the head of the one below it, the
/// lowest on the trunk's: there is nothing to rebase.
pub proof fn law_init_is_in_line(
    prefix: Option<Seq<char>>,
    trunk: TrunkView,
    names: Seq<Seq<char>>,
    heads: Seq<Seq<char>>,
    i: int,
)
    requires
        0 <= i < names.len(),
    ensures
        ({
            let s = new_stack(prefix, trunk, names, heads);
            &&& s.branches[0].base == trunk.head
            &&& i > 0 ==> Some(s.branches[i].base) == s.branches[i - 1].head
            &&& !s.branches[i].is_merged()
            &&& s.branches.len() == names.len()
        }),
{
}

/// Whether the branch at `i` is called what was asked for, behind the prefix, no
/// stack and no pool holds it, and git has it exactly where it is to be taken
/// over.
pub open spec fn cleared(
    file: StackFileView,
    pools: PoolFileView,
    args: InitArgs,
    i: int,
    full: Seq<char>,
    e: GitEvent,
) -> bool {
    &&& full == (match args.prefix {
        Some(p) => p@ + "/"@ + args.branches@[i]@,
        None => args.branches@[i]@,
    })
    &&& !stacked(file, full) && !in_a_pool(pools, full)
    &&& e matches GitEvent::BranchExists { name, reply: Ok(known) } && name == full && known
        == args.adopt
}

/// What preparing a stack finds where it goes through. The trunk is the one
/// asked for, or else the default branch that git gives, at the commit that git
/// gives for it. The branches are those asked for, in order, behind the prefix;
/// no stack and no pool holds any of them, and git has each exactly where they are
/// to be taken over.
#[verifier::rlimit(40)]
pub proof fn law_prepared_is_free(
    file: StackFileView,
    pools: PoolFileView,
    args: InitArgs,
    events: Seq<GitEvent>,
    trunk: Trunk,
    names: Vec<String>,
)
    requires
        prepares(file, pools, args, events, Ok((trunk, names))),
    ensures
        ({
            let at: int = if args.base is None {
                1
            } else {
                0
            };
            &&& args.branches@.len() > 0
            &&& names@.len() == args.branches@.len()
            &&& events.len() == at + 1 + names@.len()
            &&& match args.base {
                Some(b) => trunk.branch@ == b@,
                None => events[0] matches GitEvent::TrunkBranch { reply: Ok(b) } && b@
                    == trunk.branch@,
            }
            &&& events[at] matches GitEvent::RevParse { rev, reply: Ok(h) } && rev == trunk.branch@
                && h@ == trunk.head@
            &&& forall|i: int|
                0 <= i < names@.len() ==> cleared(
                    file,
                    pools,
                    args,
                    i,
                    (#[trigger] names@[i])@,
                    events[at + 1 + i],
                )
        }),
{
    let at: int = if args.base is None {
        1
    } else {
        0
    };
    let full = full_names_of(text::opt_view(args.prefix), text::views(args.branches@));
    let rest = events.skip(at);
    let checks = rest.skip(1);
    assert(args.base is Some ==> rest =~= events);
    assert(roots(trunk.branch@, file, pools, full, args.adopt, rest, Ok((trunk, names))));
    assert(text::views(names@).len() == names@.len());
    assert(text::views(args.branches@).len() == args.branches@.len());
    assert(full.len() == args.branches@.len());
    seqs::lemma_first_where_is(full, held(file));
    seqs::lemma_first_where_is(full, pooled(pools));
    assert(events[at] == rest[0]);
    assert forall|i: int| 0 <= i < names@.len() implies cleared(
        file,
        pools,
        args,
        i,
        (#[trigger] names@[i])@,
        events[at + 1 + i],
    ) by {
        assert(text::views(names@)[i] == names@[i]@);
        assert(full[i] == names@[i]@);
        assert(text::views(args.branches@)[i] == args.branches@[i]@);
        law_lookups_tell_holders(file, pools, full[i]);
        assert(!held(file)(full[i]) && !pooled(pools)(full[i]));
        assert(checks[i] == events[at + 1 + i]);
        assert(known_fault(args.adopt, checks[i]) is None);
    }
}

/// A stack that is made has the prefix, the trunk and the branches asked for, at
/// the heads given, each based on the head of the one below, the lowest on the
/// trunk's, without pull requests.
pub proof fn law_made_as_asked(
    prefix: Option<Seq<char>>,
    trunk: TrunkView,
    names: Seq<Seq<char>>,
    heads: Seq<Seq<char>>,
)
    requires
        heads.len() == names.len(),
    ensures
        ({
            let s = new_stack(prefix, trunk, names, heads);
            &&& s.prefix == prefix && s.trunk == trunk && s.last_refreshed_at is None
            &&& s.branches.len() == names.len()
            &&& forall|i: int|
                0 <= i < names.len() ==> {
                    let b = #[trigger] s.branches[i];
                    &&& b.branch == names[i]
                    &&& b.head == Some(heads[i])
                    &&& b.pull_request is None
                    &&& i == 0 ==> b.base == trunk.head
                    &&& i > 0 ==> b.base == heads[i - 1]
                }
        }),
{
}

/// A branch starts at the head of the one made before it, the first at the
/// trunk's.
pub proof fn law_starts_on_the_one_below(trunk_head: Seq<char>, heads: Seq<Seq<char>>)
    ensures
        heads.len() == 0 ==> start_of(trunk_head, heads, heads.len() as int) == trunk_head,
        heads.len() > 0 ==> start_of(trunk_head, heads, heads.len() as int) == heads.last(),
{
}

} // verus!
