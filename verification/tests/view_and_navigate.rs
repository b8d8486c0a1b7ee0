//! Showing one stack, and moving about in it.

use git_stack::clock::current_instant;
use git_stack::domain::{
    Branch, PullRequest, Stack, StackError, StackFile, Trunk, SCHEMA_VERSION,
};
use git_stack::git::fake::FakeGit;
use git_stack::ops::checkout::check_tracked;
use git_stack::ops::navigate::{navigate, Direction};
use git_stack::ops::view::{emit_text, view_output, viewed_stack};
use git_stack::ops::walk::{walk, BranchStatus};
use git_stack::ops::{current_stack, stack_of_branch};

fn branch(name: &str, base: &str, pr: Option<PullRequest>) -> Branch {
    Branch { branch: name.into(), head: None, base: base.into(), pull_request: pr }
}

fn pr(number: u64, merged: bool) -> PullRequest {
    PullRequest {
        number,
        id: "PR_x".into(),
        url: format!("https://github.com/flashingpumpkin/demo/pull/{number}"),
        merged,
    }
}

/// main → b1 → b2 → b3, with a pull request on b2.
fn setup() -> StackFile {
    StackFile {
        schema_version: SCHEMA_VERSION,
        repository: "github.com:flashingpumpkin/demo".into(),
        stacks: vec![Stack {
            prefix: None,
            trunk: Trunk { branch: "main".into(), head: "m".into() },
            branches: vec![
                branch("b1", "m", None),
                branch("b2", "s1", Some(pr(42, false))),
                branch("b3", "s2", None),
            ],
            last_refreshed_at: Some("2026-05-12T11:55:00Z".into()),
        }],
    }
}

fn git() -> FakeGit {
    let mut git = FakeGit::new("b2");
    git.seed_rev("main", "m");
    git.seed_rev("b1", "s1");
    git.seed_rev("b2", "s2");
    git.seed_rev("b3", "s3");
    git.seed_ancestor("m", "s1");
    git.seed_ancestor("s1", "s2");
    git.seed_ancestor("s2", "s3");
    git
}

fn statuses(file: &StackFile) -> Vec<BranchStatus> {
    walk(&mut git(), &file.stacks[0]).unwrap()
}

fn now() -> i128 {
    current_instant(Some("2026-05-12T12:00:00Z"))
}

#[test]
fn view_json_emits_full_stack() {
    let file = setup();
    let v = view_output(&file.stacks[0], &statuses(&file), Some("b2"));
    assert_eq!(v.trunk, "main");
    assert_eq!(v.current_branch.as_deref(), Some("b2"));
    assert_eq!(v.branches.len(), 3);
    assert_eq!(v.branches[1].name, "b2");
    assert!(v.branches[1].is_current);
    assert!(!v.branches[0].is_current);
    // None need rebase yet.
    for b in &v.branches {
        assert!(!b.needs_rebase, "{} should not need rebase", b.name);
    }
    assert_eq!(v.branches[2].head.as_deref(), Some("s3"));
    let shown = v.branches[1].pr.as_ref().unwrap();
    assert_eq!((shown.number, shown.state.as_str()), (42, "OPEN"));
}

#[test]
fn view_text_includes_pr_and_refresh_footer() {
    let file = setup();
    let lines = emit_text(&file.stacks[0], &statuses(&file), Some("b2"), now(), false);
    let stdout = lines.join("\n");
    // PR number + state appear next to b2.
    assert!(
        stdout.contains("#42") && stdout.contains("open"),
        "expected PR marker, got:\n{stdout}"
    );
    // PR URL on the indented chain row beneath the branch.
    assert!(
        stdout.contains("https://github.com/flashingpumpkin/demo/pull/42"),
        "expected PR URL, got:\n{stdout}"
    );
    // Current branch is marked with the filled circle.
    assert!(stdout.contains("●  b2"), "expected ●  b2 marker, got:\n{stdout}");
    // Header shows freshness relative to the pinned `now`.
    assert!(
        stdout.contains("refreshed 5m ago"),
        "expected 'refreshed 5m ago' in header, got:\n{stdout}"
    );
    // Trunk anchor at the bottom of the chain.
    assert!(stdout.contains("└─ main"), "expected trunk anchor, got:\n{stdout}");
}

#[test]
fn view_text_is_laid_out_top_down() {
    let mut file = setup();
    file.stacks[0].prefix = Some("feat/auth".into());
    file.stacks[0].branches = vec![
        branch("feat/auth/01-schema", "m", Some(pr(43, true))),
        branch("feat/auth/04-front", "s1", Some(pr(45, false))),
        branch("feat/auth/05-tests", "s2", None),
    ];
    let mut git = FakeGit::new("feat/auth/05-tests");
    git.seed_rev("main", "m2");
    git.seed_rev("feat/auth/01-schema", "s1");
    git.seed_rev("feat/auth/04-front", "s2");
    git.seed_rev("feat/auth/05-tests", "s3");
    git.seed_ancestor("s2", "s3");
    let found = walk(&mut git, &file.stacks[0]).unwrap();
    let lines =
        emit_text(&file.stacks[0], &found, Some("feat/auth/05-tests"), now(), false);
    assert_eq!(
        lines,
        vec![
            "  feat/auth  ·  trunk main  ·  refreshed 5m ago",
            "",
            "  ●  05-tests    (no PR)",
            "  ○  04-front    #45  open  ▲ needs rebase",
            "  │     https://github.com/flashingpumpkin/demo/pull/45",
            "  │",
            "  └─ main",
            "",
            "  Merged (1) ───────────────────────────────────────────────",
            "  ✓  01-schema    #43",
        ]
    );
}

#[test]
fn view_text_without_active_branches_says_so() {
    let mut file = setup();
    file.stacks[0].branches = vec![branch("b1", "m", Some(pr(1, true)))];
    file.stacks[0].last_refreshed_at = None;
    let lines = emit_text(&file.stacks[0], &statuses(&file), None, now(), false);
    assert_eq!(
        lines[0],
        "  (no prefix)  ·  trunk main  ·  PR state never refreshed (`stack view -r` to fetch)"
    );
    assert_eq!(lines[2], "  └─ main");
    assert_eq!(lines[3], "  (no active branches)");
}

#[test]
fn view_json_includes_last_refreshed_at() {
    let file = setup();
    let v = view_output(&file.stacks[0], &statuses(&file), Some("b1"));
    assert_eq!(v.last_refreshed_at.as_deref(), Some("2026-05-12T11:55:00Z"));
}

#[test]
fn view_detects_branch_needing_rebase() {
    let file = setup();
    let mut git = git();
    // The trunk has moved on: b1 is no longer on top of it.
    git.seed_rev("main", "m2");
    let found = walk(&mut git, &file.stacks[0]).unwrap();
    let v = view_output(&file.stacks[0], &found, Some("b1"));
    assert!(v.branches[0].needs_rebase);
    assert!(!v.branches[1].needs_rebase);
}

#[test]
fn up_down_top_bottom_navigate() {
    let file = setup();
    let s = &file.stacks[0];
    assert_eq!(navigate(s, "b2", Direction::Up, 1).unwrap().unwrap(), "b3");
    assert_eq!(navigate(s, "b3", Direction::Down, 2).unwrap().unwrap(), "b1");
    assert_eq!(navigate(s, "b1", Direction::Top, 0).unwrap().unwrap(), "b3");
    assert_eq!(navigate(s, "b3", Direction::Bottom, 0).unwrap().unwrap(), "b1");
}

#[test]
fn navigation_stays_within_the_stack() {
    let file = setup();
    let s = &file.stacks[0];
    assert_eq!(navigate(s, "b3", Direction::Up, 1).unwrap(), None);
    assert_eq!(navigate(s, "b1", Direction::Down, usize::MAX).unwrap(), None);
    assert_eq!(navigate(s, "b1", Direction::Up, usize::MAX).unwrap().unwrap(), "b3");
}

#[test]
fn navigation_needs_an_active_branch() {
    let mut file = setup();
    file.stacks[0].branches = vec![branch("b1", "m", Some(pr(1, true)))];
    match navigate(&file.stacks[0], "b1", Direction::Top, 0) {
        Err(StackError::Other(m)) => assert_eq!(m, "no active branches in stack"),
        other => panic!("unexpected: {other:?}"),
    }
}

#[test]
fn checkout_by_branch_name_works() {
    let file = setup();
    assert!(check_tracked(&file, "b2").is_ok());
    match check_tracked(&file, "elsewhere") {
        Err(StackError::Other(m)) => {
            assert_eq!(m, "branch `elsewhere` is not part of any locally-tracked stack")
        }
        other => panic!("unexpected: {other:?}"),
    }
}

#[test]
fn the_current_stack_is_the_one_that_holds_the_branch() {
    let file = setup();
    assert_eq!(current_stack(&file, Some("b2")).unwrap(), 0);
    assert_eq!(stack_of_branch(&file, "b3").unwrap(), 0);
    assert!(matches!(current_stack(&file, Some("main")), Err(StackError::NotInStack)));
    match current_stack(&file, None) {
        Err(StackError::Other(m)) => assert_eq!(m, "detached HEAD"),
        other => panic!("unexpected: {other:?}"),
    }
    assert_eq!(viewed_stack(&file, Some("b1")).unwrap(), 0);
    assert!(matches!(viewed_stack(&file, None), Err(StackError::NotInStack)));
}
