//! Stacks and what is looked up in them.

use git_stack::domain::{Branch, PullRequest, Stack, StackError, StackFile, Trunk, SCHEMA_VERSION};

#[test]
fn apply_prefix_with_prefix() {
    let s = Stack {
        prefix: Some("feat".into()),
        trunk: Trunk {
            branch: "main".into(),
            head: "abc".into(),
        },
        branches: vec![],
        last_refreshed_at: None,
    };
    assert_eq!(s.apply_prefix("auth"), "feat/auth");
}

#[test]
fn apply_prefix_without_prefix_is_identity() {
    let s = Stack {
        prefix: None,
        trunk: Trunk {
            branch: "main".into(),
            head: "abc".into(),
        },
        branches: vec![],
        last_refreshed_at: None,
    };
    assert_eq!(s.apply_prefix("auth"), "auth");
}

fn b(name: &str, merged: bool) -> Branch {
    Branch {
        branch: name.into(),
        head: None,
        base: "x".into(),
        pull_request: if merged {
            Some(PullRequest {
                number: 1,
                id: "id".into(),
                url: "u".into(),
                merged: true,
            })
        } else {
            None
        },
    }
}

fn stack_with(names: &[(&str, bool)]) -> Stack {
    Stack {
        prefix: None,
        trunk: Trunk {
            branch: "main".into(),
            head: "t".into(),
        },
        branches: names.iter().map(|(n, m)| b(n, *m)).collect(),
        last_refreshed_at: None,
    }
}

#[test]
fn step_active_skips_merged_branches() {
    // a(merged) → b → c(merged) → d → e
    let s = stack_with(&[
        ("a", true),
        ("b", false),
        ("c", true),
        ("d", false),
        ("e", false),
    ]);
    // Active sequence is b → d → e.
    assert_eq!(s.step_active("b", 1).unwrap().branch, "d");
    assert_eq!(s.step_active("b", 2).unwrap().branch, "e");
    assert_eq!(s.step_active("d", -1).unwrap().branch, "b");
    // Clamps.
    assert_eq!(s.step_active("e", 10).unwrap().branch, "e");
    assert_eq!(s.step_active("b", -10).unwrap().branch, "b");
}

#[test]
fn top_and_bottom_skip_merged() {
    let s = stack_with(&[("a", true), ("b", false), ("c", false), ("d", true)]);
    assert_eq!(s.bottom_active().unwrap().branch, "b");
    assert_eq!(s.top_active().unwrap().branch, "c");
}

#[test]
fn current_stack_disambiguation() {
    let s1 = stack_with(&[("shared", false), ("only-s1", false)]);
    let s2 = stack_with(&[("shared", false), ("only-s2", false)]);
    let file = StackFile {
        schema_version: SCHEMA_VERSION,
        repository: "r".into(),
        stacks: vec![s1, s2],
    };
    assert!(matches!(
        file.current_stack("shared"),
        Err(StackError::Disambiguation(_))
    ));
    assert_eq!(
        file.current_stack("only-s1").unwrap().branches[1].branch,
        "only-s1"
    );
    assert!(matches!(
        file.current_stack("not-in-any-stack"),
        Err(StackError::NotInStack)
    ));
}
