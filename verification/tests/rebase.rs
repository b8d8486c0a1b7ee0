//! The cascade, and pushing what it made.

use git_stack::cli::scope_of;
use git_stack::domain::{
    Branch, PullRequest, Stack, StackError, StackFile, Trunk, SCHEMA_VERSION,
};
use git_stack::git::fake::FakeGit;
use git_stack::git::RebaseOutcome;
use git_stack::ops::cascade::{resume, Cascade, Step};
use git_stack::ops::push::{active_names, push};
use git_stack::ops::rebase::{
    done_lines, rebase_item, record_resumed, remaining_plan, stopped, ItemOutcome, Scope,
};
use git_stack::ops::sync::record_trunk_head;
use git_stack::ops::unstack::unstack;
use git_stack::ops::walk::{rebase_plan, RebaseItem};

fn branch(name: &str, head: &str, base: &str) -> Branch {
    Branch {
        branch: name.into(),
        head: Some(head.into()),
        base: base.into(),
        pull_request: None,
    }
}

fn setup() -> StackFile {
    StackFile {
        schema_version: SCHEMA_VERSION,
        repository: "r".into(),
        stacks: vec![Stack {
            prefix: Some("feat".into()),
            trunk: Trunk { branch: "main".into(), head: "m".into() },
            branches: vec![
                branch("feat/a", "a", "m"),
                branch("feat/b", "b", "a"),
                branch("feat/c", "c", "b"),
            ],
            last_refreshed_at: None,
        }],
    }
}

fn git() -> FakeGit {
    let mut git = FakeGit::new("feat/c");
    git.seed_rev("main", "m");
    git.seed_rev("feat/a", "a");
    git.seed_rev("feat/b", "b");
    git.seed_rev("feat/c", "c");
    git
}

fn merge(file: &mut StackFile, i: usize) {
    file.stacks[0].branches[i].pull_request =
        Some(PullRequest { number: 1, id: "x".into(), url: "u".into(), merged: true });
}

#[test]
fn rebase_is_no_op_after_clean_init() {
    let file = setup();
    let plan = rebase_plan(&mut git(), &file.stacks[0], Scope::Full, "feat/c").unwrap();
    assert!(plan.is_empty());
}

#[test]
fn push_sends_all_branches_to_remote() {
    let file = setup();
    let mut git = git();
    assert_eq!(push(&mut git, &file, "origin").unwrap(), 3);
    let pushes = git.pushes();
    assert_eq!(pushes.len(), 1);
    assert_eq!(pushes[0].remote, "origin");
    assert_eq!(pushes[0].branches, vec!["feat/a", "feat/b", "feat/c"]);
}

#[test]
fn push_leaves_merged_branches_out() {
    let mut file = setup();
    merge(&mut file, 0);
    assert_eq!(active_names(&file.stacks[0]), vec!["feat/b", "feat/c"]);
    merge(&mut file, 1);
    merge(&mut file, 2);
    let mut git = git();
    assert_eq!(push(&mut git, &file, "origin").unwrap(), 0);
    assert!(git.pushes().is_empty());
    assert!(matches!(
        push(&mut FakeGit::new("main"), &file, "origin"),
        Err(StackError::NotInStack)
    ));
}

#[test]
fn cascade_rebase_after_trunk_advances() {
    let mut file = setup();
    let mut git = git();
    git.seed_rev("main", "m2");
    record_trunk_head(&mut file, 0, "m2");
    assert_eq!(file.stacks[0].trunk.head, "m2");

    let plan = rebase_plan(&mut git, &file.stacks[0], Scope::Full, "feat/c").unwrap();
    let names: Vec<&str> = plan.iter().map(|i| i.branch.as_str()).collect();
    assert_eq!(names, vec!["feat/a", "feat/b", "feat/c"]);

    // Every rebase moves its branch; the next goes onto where that now is.
    for (item, head) in plan.iter().zip(["a2", "b2", "c2"]) {
        git.seed_rev(&item.branch, head);
        match rebase_item(&mut git, &mut file, 0, item).unwrap() {
            ItemOutcome::Done(live, _) => assert_eq!(live.branch, item.branch),
            other => panic!("unexpected: {other:?}"),
        }
    }
    let branches = &file.stacks[0].branches;
    assert_eq!(branches[0].base, "m2");
    assert_eq!(branches[1].base, "a2");
    assert_eq!(branches[2].base, "b2");
    assert_eq!(branches[2].head.as_deref(), Some("c2"));
}

#[test]
fn the_scope_limits_the_plan() {
    let file = setup();
    let mut git = git();
    git.seed_rev("main", "m2");
    git.seed_rev("feat/a", "a2");
    git.seed_rev("feat/b", "b2");
    let stack = &file.stacks[0];
    let names = |git: &mut FakeGit, scope: Scope| -> Vec<String> {
        rebase_plan(git, stack, scope, "feat/b")
            .unwrap()
            .into_iter()
            .map(|i| i.branch)
            .collect()
    };
    assert_eq!(names(&mut git, scope_of(false, false)), vec!["feat/a", "feat/b", "feat/c"]);
    assert_eq!(names(&mut git, scope_of(true, false)), vec!["feat/b", "feat/c"]);
    assert_eq!(names(&mut git, scope_of(false, true)), vec!["feat/a", "feat/b"]);
}

#[test]
fn merged_parents_are_passed_over() {
    let mut file = setup();
    merge(&mut file, 0);
    let mut git = git();
    git.seed_rev("main", "m2");
    let plan = rebase_plan(&mut git, &file.stacks[0], Scope::Full, "feat/c").unwrap();
    assert_eq!(plan[0].branch, "feat/b");
    assert_eq!(plan[0].new_base, "m2");
    rebase_item(&mut git, &mut file, 0, &plan[0]).unwrap();
    assert_eq!(file.stacks[0].branches[1].base, "m2");
    assert_eq!(file.stacks[0].branches[0].base, "m");
}

#[test]
fn a_conflict_stops_the_cascade_and_it_resumes_where_it_stopped() {
    let mut file = setup();
    let mut git = git();
    git.seed_rev("main", "m2");
    git.seed_conflict("feat/b");
    let plan = rebase_plan(&mut git, &file.stacks[0], Scope::Full, "feat/c").unwrap();
    git.seed_rev("feat/a", "a2");
    let first = match rebase_item(&mut git, &mut file, 0, &plan[0]).unwrap() {
        ItemOutcome::Done(live, _) => live,
        other => panic!("unexpected: {other:?}"),
    };
    let live = match rebase_item(&mut git, &mut file, 0, &plan[1]).unwrap() {
        ItemOutcome::Conflict(live) => live,
        other => panic!("unexpected: {other:?}"),
    };
    assert_eq!(live.new_base, "a2");
    assert_eq!(file.stacks[0].branches[1].base, "a");

    let remaining: Vec<RebaseItem> = plan[1..].to_vec();
    let state = stopped(0, &remaining, live, vec![first]);
    assert_eq!(state.remaining, vec![2]);
    assert_eq!(state.current.branch, "feat/b");
    assert_eq!(state.completed.len(), 1);

    // The user resolves the conflict.
    record_resumed(&mut file, &state, "b2");
    assert_eq!(file.stacks[0].branches[1].base, "a2");
    assert_eq!(file.stacks[0].branches[1].head.as_deref(), Some("b2"));
    let rest = remaining_plan(&file.stacks[0], &state.remaining);
    assert_eq!(rest.len(), 1);
    assert_eq!(rest[0].branch, "feat/c");
    assert_eq!(rest[0].old_base, "b");
    git.seed_rev("feat/b", "b2");
    git.seed_rev("feat/c", "c2");
    rebase_item(&mut git, &mut file, 0, &rest[0]).unwrap();
    assert_eq!(file.stacks[0].branches[2].base, "b2");
}

#[test]
fn a_cascade_runs_step_by_step() {
    let mut file = setup();
    let mut git = git();
    git.seed_rev("main", "m2");
    git.seed_conflict("feat/b");
    let plan = rebase_plan(&mut git, &file.stacks[0], Scope::Full, "feat/c").unwrap();
    let mut cascade = Cascade::start(0, plan);
    match cascade.advance(&mut git, &mut file).unwrap() {
        Step::Rebased(lines) => assert_eq!(lines, vec!["✓ rebased feat/a onto m2"]),
        other => panic!("unexpected: {other:?}"),
    }
    let state = match cascade.advance(&mut git, &mut file).unwrap() {
        Step::Stopped(state) => state,
        other => panic!("unexpected: {other:?}"),
    };
    assert_eq!(state.remaining, vec![2]);
    assert_eq!(state.completed[0].branch, "feat/a");

    let mut rest = resume(&mut file, &state, "b2").unwrap();
    assert_eq!(file.stacks[0].branches[1].head.as_deref(), Some("b2"));
    git.seed_rev("feat/b", "b2");
    assert!(matches!(rest.advance(&mut git, &mut file).unwrap(), Step::Rebased(_)));
    assert_eq!(file.stacks[0].branches[2].base, "b2");
    assert!(matches!(rest.advance(&mut git, &mut file).unwrap(), Step::Finished));

    // A file without the branches cannot be gone on with.
    file.stacks[0].branches.truncate(2);
    let before = file.clone();
    assert!(resume(&mut file, &state, "b3").is_none());
    assert_eq!(file, before);
}

#[test]
fn a_rebase_without_its_parent_fails() {
    let mut file = setup();
    let mut git = FakeGit::new("feat/a");
    let item = RebaseItem {
        branch_index: 0,
        branch: "feat/a".into(),
        new_base: String::new(),
        old_base: "m".into(),
    };
    assert!(matches!(rebase_item(&mut git, &mut file, 0, &item), Err(StackError::Other(_))));
    assert_eq!(file, setup());
}

#[test]
fn a_rebase_is_reported_with_a_short_commit() {
    let item = RebaseItem {
        branch_index: 0,
        branch: "feat/a".into(),
        new_base: "0123456789".into(),
        old_base: "m".into(),
    };
    assert_eq!(
        done_lines(&item, &RebaseOutcome { rerere_replays: 0 }),
        vec!["✓ rebased feat/a onto 0123456"]
    );
    assert_eq!(
        done_lines(&item, &RebaseOutcome { rerere_replays: 1 })[1],
        "  ↳ rerere replayed 1 resolution"
    );
}

#[test]
fn unstacking_forgets_every_stack_with_the_branch() {
    let mut file = setup();
    assert_eq!(unstack(&mut file, "feat/b").unwrap(), 1);
    assert!(file.stacks.is_empty());
    assert!(matches!(unstack(&mut file, "feat/b"), Err(StackError::NotInStack)));
}
