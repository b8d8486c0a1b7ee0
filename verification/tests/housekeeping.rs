//! Removing and pruning stacks.

use git_stack::domain::{
    Branch, PullRequest, Stack, StackError, StackFile, Trunk, SCHEMA_VERSION,
};
use git_stack::ops::prune::{
    drop_merged_stacks, dropped_lines, is_fully_merged, prune_targets, stack_label,
};
use git_stack::ops::remove::{dirty_worktrees, drop_stack, removable, WorktreeFacts};
use git_stack::ops::stack_of_branch;

fn stack(prefix: &str, branches: &[(&str, bool)]) -> Stack {
    Stack {
        prefix: Some(prefix.into()),
        trunk: Trunk { branch: "main".into(), head: "m".into() },
        branches: branches
            .iter()
            .map(|(name, merged)| Branch {
                branch: name.to_string(),
                head: None,
                base: "m".into(),
                pull_request: merged.then(|| PullRequest {
                    number: 1,
                    id: "x".into(),
                    url: "u".into(),
                    merged: true,
                }),
            })
            .collect(),
        last_refreshed_at: None,
    }
}

fn file(stacks: Vec<Stack>) -> StackFile {
    StackFile { schema_version: SCHEMA_VERSION, repository: "r".into(), stacks }
}

fn facts(path: &str, branch: &str, present: bool, clean: Result<bool, StackError>) -> WorktreeFacts {
    WorktreeFacts { path: path.into(), branch: branch.into(), present, clean }
}

#[test]
fn prune_drops_fully_merged_stack_and_keeps_active_one() {
    let mut f = file(vec![
        stack("done", &[("done/a", true), ("done/b", true)]),
        stack("live", &[("live/x", false)]),
    ]);
    let targets = prune_targets(&f);
    assert_eq!(targets, vec![0]);
    let stderr = dropped_lines(&f.stacks[0], &vec![], false).join("\n");
    assert!(
        stderr.contains("dropped stack done"),
        "expected 'dropped stack done', got:\n{stderr}"
    );
    drop_merged_stacks(&mut f);
    assert_eq!(f.stacks.len(), 1);
    assert_eq!(f.stacks[0].prefix.as_deref(), Some("live"));
}

#[test]
fn prune_dry_run_does_not_modify_store() {
    let f = file(vec![stack("done", &[("done/a", true)])]);
    let before = f.clone();
    let targets = prune_targets(&f);
    let lines = dropped_lines(&f.stacks[targets[0]], &vec!["/wt".to_string()], true);
    let stderr = lines.join("\n");
    assert!(
        stderr.contains("would drop stack done"),
        "expected 'would drop stack done', got:\n{stderr}"
    );
    assert_eq!(lines[1], "  ↳ would remove worktree /wt");
    assert_eq!(before, f, "dry-run should not modify stacks.json");
}

#[test]
fn prune_reports_nothing_when_all_clean() {
    let f = file(vec![stack("live", &[("live/x", false)])]);
    assert!(prune_targets(&f).is_empty());
}

#[test]
fn an_empty_or_half_merged_stack_stays() {
    let mut f = file(vec![
        stack("empty", &[]),
        stack("half", &[("a", true), ("b", false)]),
        stack("done", &[("c", true)]),
        stack("more", &[("d", true), ("e", true)]),
    ]);
    assert!(!is_fully_merged(&f.stacks[0]));
    assert!(!is_fully_merged(&f.stacks[1]));
    assert_eq!(prune_targets(&f), vec![2, 3]);
    drop_merged_stacks(&mut f);
    let left: Vec<&str> = f.stacks.iter().map(stack_label).collect();
    assert_eq!(left, vec!["empty", "half"]);
    drop_merged_stacks(&mut f);
    assert_eq!(f.stacks.len(), 2);
    f.stacks[0].prefix = None;
    assert_eq!(stack_label(&f.stacks[0]), "(no prefix)");
}

#[test]
fn remove_removes_only_the_matching_stack() {
    let mut f = file(vec![stack("s1", &[("s1/a", false)]), stack("s2", &[("s2/a", false)])]);
    let index = stack_of_branch(&f, "s2/a").unwrap();
    drop_stack(&mut f, index);
    assert_eq!(f.stacks.len(), 1);
    assert_eq!(f.stacks[0].prefix.as_deref(), Some("s1"));
    assert!(matches!(stack_of_branch(&f, "s2/a"), Err(StackError::NotInStack)));
}

#[test]
fn remove_drops_stack_and_clears_worktree_when_clean() {
    let mut f = file(vec![stack("feat", &[("feat/a", false)])]);
    let list = vec![
        facts("/repo", "main", true, Ok(false)),
        facts("/tmp/wt", "feat/a", true, Ok(true)),
        facts("/tmp/gone", "feat/a", false, Ok(true)),
    ];
    assert_eq!(removable(&f.stacks[0], &list, "/repo", false).unwrap(), vec!["/tmp/wt"]);
    drop_stack(&mut f, 0);
    assert_eq!(f.stacks.len(), 0);
}

#[test]
fn remove_refuses_when_worktree_dirty() {
    let f = file(vec![stack("feat", &[("feat/a", false)])]);
    let list = vec![facts("/tmp/wt", "feat/a", true, Ok(false))];
    assert_eq!(dirty_worktrees(&f.stacks[0], &list).unwrap(), vec!["/tmp/wt"]);
    match removable(&f.stacks[0], &list, "/repo", false) {
        Err(StackError::InvalidArgs(m)) => assert_eq!(m, "worktree has uncommitted changes"),
        other => panic!("unexpected: {other:?}"),
    }
    assert_eq!(f.stacks.len(), 1);
}

#[test]
fn remove_force_drops_dirty_worktree() {
    let f = file(vec![stack("feat", &[("feat/a", false)])]);
    let list = vec![facts("/tmp/wt", "feat/a", true, Ok(false))];
    assert_eq!(removable(&f.stacks[0], &list, "/repo", true).unwrap(), vec!["/tmp/wt"]);
}

#[test]
fn remove_refuses_from_inside_the_worktree() {
    let f = file(vec![stack("feat", &[("feat/a", false)])]);
    let list = vec![facts("/tmp/wt", "feat/a", true, Ok(true))];
    match removable(&f.stacks[0], &list, "/tmp/wt/src", true) {
        Err(StackError::InvalidArgs(m)) => assert_eq!(
            m,
            "cannot remove a stack from inside its own worktree (/tmp/wt); cd elsewhere first"
        ),
        other => panic!("unexpected: {other:?}"),
    }
    assert!(removable(&f.stacks[0], &list, "/tmp/wtx", true).is_ok());
}

#[test]
fn remove_passes_on_what_git_could_not_tell() {
    let f = file(vec![stack("feat", &[("feat/a", false)])]);
    let list = vec![facts("/tmp/wt", "feat/a", true, Err(StackError::Other("boom".into())))];
    match removable(&f.stacks[0], &list, "/repo", false) {
        Err(StackError::Other(m)) => assert_eq!(m, "boom"),
        other => panic!("unexpected: {other:?}"),
    }
    assert!(removable(&f.stacks[0], &list, "/repo", true).is_ok());
}
