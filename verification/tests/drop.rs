//! Taking one branch out of a stack.

use git_stack::domain::{Branch, Stack, StackError, StackFile, Trunk, SCHEMA_VERSION};
use git_stack::git::fake::FakeGit;
use git_stack::ops::drop::{drop_branch, locate, move_off};
use git_stack::ops::rebase::{rebase_item, ItemOutcome, Scope};
use git_stack::ops::walk::rebase_plan;

fn branch(name: &str, head: &str, base: &str) -> Branch {
    Branch {
        branch: name.into(),
        head: Some(head.into()),
        base: base.into(),
        pull_request: None,
    }
}

/// A stack of three branches `feat/a → feat/b → feat/c`, in line.
fn setup() -> StackFile {
    StackFile {
        schema_version: SCHEMA_VERSION,
        repository: "github.com:flashingpumpkin/demo".into(),
        stacks: vec![Stack {
            prefix: Some("feat".into()),
            trunk: Trunk { branch: "main".into(), head: "m".into() },
            branches: vec![
                branch("feat/a", "a", "m"),
                branch("feat/b", "b", "a"),
                branch("feat/c", "c", "b"),
            ],
            last_refreshed_at: None,
        }],
    }
}

fn names(file: &StackFile) -> Vec<&str> {
    file.stacks[0].branches.iter().map(|b| b.branch.as_str()).collect()
}

fn drop_named(file: &mut StackFile, name: &str) -> bool {
    let (stack, i) = locate(file, name).unwrap();
    drop_branch(file, stack, i)
}

fn git() -> FakeGit {
    let mut git = FakeGit::new("feat/c");
    git.seed_rev("main", "m");
    git.seed_rev("feat/a", "a");
    git.seed_rev("feat/b", "b");
    git.seed_rev("feat/c", "c");
    git
}

/// Run the cascade that follows a drop.
fn cascade(git: &mut FakeGit, file: &mut StackFile) -> usize {
    let plan = rebase_plan(git, &file.stacks[0], Scope::Full, "feat/c").unwrap();
    for item in &plan {
        let outcome = rebase_item(git, file, 0, item).unwrap();
        assert!(matches!(outcome, ItemOutcome::Done(_, _)));
    }
    plan.len()
}

#[test]
fn drop_top_branch_removes_only_that_branch() {
    let mut file = setup();
    assert!(!drop_named(&mut file, "feat/c"));
    assert_eq!(names(&file), vec!["feat/a", "feat/b"]);
}

#[test]
fn drop_middle_branch_reparents_children_onto_grandparent() {
    let mut file = setup();
    drop_named(&mut file, "feat/b");
    let mut git = git();
    assert_eq!(cascade(&mut git, &mut file), 1);

    let branches = &file.stacks[0].branches;
    assert_eq!(branches.len(), 2);
    assert_eq!(branches[0].branch, "feat/a");
    assert_eq!(branches[1].branch, "feat/c");
    assert_eq!(branches[1].base, "a");
}

#[test]
fn drop_bottom_branch_reparents_children_onto_trunk() {
    let mut file = setup();
    drop_named(&mut file, "feat/a");
    let mut git = git();
    assert_eq!(cascade(&mut git, &mut file), 2);

    let branches = &file.stacks[0].branches;
    assert_eq!(branches.len(), 2);
    assert_eq!(branches[0].branch, "feat/b");
    assert_eq!(branches[0].base, "m");
}

#[test]
fn drop_last_branch_removes_the_stack_entry() {
    let mut file = setup();
    assert!(!drop_named(&mut file, "feat/c"));
    assert!(!drop_named(&mut file, "feat/b"));
    assert!(drop_named(&mut file, "feat/a"));
    assert_eq!(file.stacks.len(), 0);
}

#[test]
fn drop_unknown_branch_fails() {
    let file = setup();
    assert!(matches!(locate(&file, "not-a-real-branch"), Err(StackError::NotInStack)));
}

#[test]
fn dropping_the_current_branch_moves_to_its_parent() {
    let mut file = setup();
    assert_eq!(move_off(&file, 0, 0, Some("feat/a")), Some("main".to_string()));
    assert_eq!(move_off(&file, 0, 1, Some("feat/b")), Some("feat/a".to_string()));
    assert_eq!(move_off(&file, 0, 2, Some("feat/c")), Some("feat/b".to_string()));
    assert_eq!(move_off(&file, 0, 2, Some("feat/a")), None);
    assert_eq!(move_off(&file, 0, 2, None), None);
    drop_named(&mut file, "feat/c");
    drop_named(&mut file, "feat/b");
    assert_eq!(move_off(&file, 0, 0, Some("feat/a")), Some("main".to_string()));
}

#[test]
fn drop_in_two_stacks_asks_which() {
    let mut file = setup();
    let twin = file.stacks[0].clone();
    file.stacks.push(twin);
    assert!(matches!(locate(&file, "feat/a"), Err(StackError::Disambiguation(_))));
}
