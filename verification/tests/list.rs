//! Listing every stack.

use git_stack::domain::{
    Branch, PullRequest, Stack, StackFile, Trunk, Worktree, WorktreeStatus, SCHEMA_VERSION,
};
use git_stack::ops::list::{emit_text, list_output};

fn branch(name: &str, pr: Option<PullRequest>) -> Branch {
    Branch { branch: name.into(), head: None, base: "m".into(), pull_request: pr }
}

fn stack(prefix: &str, trunk: &str, branches: Vec<Branch>) -> Stack {
    Stack {
        prefix: Some(prefix.into()),
        trunk: Trunk { branch: trunk.into(), head: "m".into() },
        branches,
        last_refreshed_at: None,
    }
}

fn file(stacks: Vec<Stack>) -> StackFile {
    StackFile {
        schema_version: SCHEMA_VERSION,
        repository: "github.com:flashingpumpkin/demo".into(),
        stacks,
    }
}

fn worktree(path: &str, branch: &str, present: bool) -> Worktree {
    Worktree { path: path.into(), branch: branch.into(), present }
}

fn pr(number: u64, merged: bool) -> PullRequest {
    PullRequest { number, id: "PR".into(), url: format!("https://x/{number}"), merged }
}

#[test]
fn list_reports_no_stacks_for_empty_store() {
    let lines = emit_text(&file(vec![]), None, &vec![], "/repo", None, false);
    let stdout = lines.join("\n");
    assert!(stdout.contains("no stacks tracked"), "got: {stdout}");
    assert_eq!(lines, vec!["  no stacks tracked for github.com:flashingpumpkin/demo"]);
}

#[test]
fn list_reports_worktree_when_one_exists() {
    let f = file(vec![stack("feat", "main", vec![branch("feat/a", None), branch("feat/b", None)])]);
    let wts = vec![worktree("/repo", "main", true), worktree("/tmp/wt", "feat/a", true)];
    let stdout = emit_text(&f, Some("main"), &wts, "/repo", None, false).join("\n");
    assert!(
        stdout.contains("/tmp/wt"),
        "expected worktree path in list output, got:\n{stdout}"
    );
    let v = list_output(&f, Some("main"), &wts, "/repo");
    assert_eq!(v.stacks[0].worktree.as_deref(), Some("/tmp/wt"));
    assert!(!v.stacks[0].worktree_missing);
}

#[test]
fn list_flags_worktree_as_missing_when_directory_deleted() {
    let f = file(vec![stack("feat", "main", vec![branch("feat/a", None)])]);
    let wts = vec![worktree("/tmp/wt-doomed", "feat/a", false)];
    let stdout = emit_text(&f, None, &wts, "/repo", None, false).join("\n");
    assert!(stdout.contains("(missing)"), "expected '(missing)' marker, got:\n{stdout}");
    assert!(list_output(&f, None, &wts, "/repo").stacks[0].worktree_missing);
}

#[test]
fn list_falls_back_to_main_checkout_when_no_explicit_worktree() {
    let f = file(vec![stack("feat", "main", vec![branch("feat/a", None)])]);
    let wts = vec![worktree("/work/repo", "feat/a", true)];
    let stdout = emit_text(&f, Some("feat/a"), &wts, "/work/repo", None, false).join("\n");
    assert!(
        stdout.contains("/work/repo"),
        "expected main checkout path in list output, got:\n{stdout}"
    );
}

#[test]
fn list_shows_every_stack_and_marks_current() {
    let f = file(vec![
        stack("s1", "main", vec![branch("s1/a", None), branch("s1/b", None)]),
        stack("s2", "main", vec![branch("s2/x", None)]),
    ]);
    let v = list_output(&f, Some("s2/x"), &vec![], "/repo");
    assert_eq!(v.repository, "github.com:flashingpumpkin/demo");
    assert_eq!(v.stacks.len(), 2);
    let s1 = v.stacks.iter().find(|s| s.prefix.as_deref() == Some("s1")).unwrap();
    let s2 = v.stacks.iter().find(|s| s.prefix.as_deref() == Some("s2")).unwrap();
    assert_eq!(s1.branch_count, 2);
    assert_eq!(s1.active_count, 2);
    assert!(!s1.is_current);
    assert_eq!(s2.branch_count, 1);
    assert!(s2.is_current);
    assert_eq!(s2.branches[0].name, "s2/x");
    assert!(s2.branches[0].is_current);
    assert!(!s2.branches[0].is_merged);
    assert_eq!(s2.worktree, None);
}

#[test]
fn list_text_is_laid_out_stack_by_stack() {
    let f = file(vec![
        stack("s1", "main", vec![branch("s1/a", Some(pr(7, true))), branch("s1/long", None)]),
        stack("s2", "main", vec![branch("s2/x", Some(pr(8, false)))]),
    ]);
    let wts = vec![worktree("/home/u/wt", "s2/x", true)];
    let lines = emit_text(&f, Some("s2/x"), &wts, "/elsewhere", Some("/home/u"), false);
    assert_eq!(
        lines,
        vec![
            "  github.com:flashingpumpkin/demo  ·  2 stacks  ·  trunk main",
            "",
            "s1        2 branches  1 merged",
            "",
            "  ○  long    (no PR)",
            "  ✓  a       #7  merged",
            "  │           https://x/7",
            "  └─ main",
            "",
            "s2        ~/wt",
            "",
            "  ●  x    #8  open",
            "  │        https://x/8",
            "  └─ main",
            "",
        ]
    );
}

#[test]
fn list_names_each_trunk_where_they_differ() {
    let f = file(vec![
        stack("s1", "main", vec![branch("s1/a", None)]),
        stack("s2", "release", vec![branch("s2/x", None), branch("s2/y", None)]),
    ]);
    let lines = emit_text(&f, None, &vec![], "/repo", None, false);
    assert_eq!(lines[0], "  github.com:flashingpumpkin/demo  ·  2 stacks");
    assert_eq!(lines[2], "s1  ·  trunk main        (no worktree)");
    assert!(lines.contains(&"s2  ·  trunk release        2 branches".to_string()));
}

#[test]
fn the_worktree_around_the_caller_is_preferred() {
    let s = stack("feat", "main", vec![branch("feat/a", None), branch("feat/b", None)]);
    let wts = vec![
        worktree("/wt/a", "feat/a", true),
        worktree("/wt/b", "feat/b", true),
    ];
    assert_eq!(s.resolve_worktree(&wts, "/wt/b/src"), WorktreeStatus::Live("/wt/b".into()));
    assert_eq!(s.resolve_worktree(&wts, "/wt/bee"), WorktreeStatus::Live("/wt/a".into()));
    let gone = vec![worktree("/wt/a", "feat/a", false), worktree("/wt/b", "feat/b", true)];
    assert_eq!(s.resolve_worktree(&gone, "/"), WorktreeStatus::Live("/wt/b".into()));
    let all_gone = vec![worktree("/wt/b", "feat/b", false)];
    assert_eq!(s.resolve_worktree(&all_gone, "/"), WorktreeStatus::Missing("/wt/b".into()));
    assert_eq!(s.resolve_worktree(&vec![], "/"), WorktreeStatus::Absent);
}

#[test]
fn a_worktree_inside_another_checkout_is_the_one_around_the_caller() {
    let s = stack("p", "main", vec![branch("x", None), branch("a", None)]);
    let wts = vec![
        worktree("/", "main", true),
        worktree("/usr", "x", true),
        worktree("/tmp", "a", true),
    ];
    assert_eq!(s.resolve_worktree(&wts, "/tmp"), WorktreeStatus::Live("/tmp".into()));
    assert_eq!(s.resolve_worktree(&wts, "/tmp/deep"), WorktreeStatus::Live("/tmp".into()));
    assert_eq!(s.resolve_worktree(&wts, "/home"), WorktreeStatus::Live("/usr".into()));
}
