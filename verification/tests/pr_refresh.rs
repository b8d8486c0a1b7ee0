//! What a stack learns from its pull requests.

use git_stack::domain::{Branch, Stack, StackFile, Trunk, SCHEMA_VERSION};
use git_stack::github::fake::FakeGitHub;
use git_stack::github::{PrState, PullRequestInfo};
use git_stack::ops::pr_refresh::{refresh_all, refresh_stack};

const NOW: &str = "2026-05-12T12:00:00Z";

fn b(name: &str) -> Branch {
    Branch {
        branch: name.into(),
        head: Some("h".into()),
        base: "x".into(),
        pull_request: None,
    }
}

fn file_with(branches: Vec<Branch>) -> StackFile {
    StackFile {
        schema_version: SCHEMA_VERSION,
        repository: "test".into(),
        stacks: vec![Stack {
            prefix: None,
            trunk: Trunk {
                branch: "main".into(),
                head: "t".into(),
            },
            branches,
            last_refreshed_at: None,
        }],
    }
}

#[test]
fn discovers_pr_for_branch_without_one_and_records_merged_state() {
    // The bug from the field: a branch with no `pullRequest` in the
    // store even though gh knows there's a merged PR for its head ref.
    // After refresh, the branch should be marked merged so prune can
    // see the stack as fully-merged.
    let mut file = file_with(vec![b("feat/a")]);
    let mut gh = FakeGitHub::new();
    gh.seed_pr(PullRequestInfo {
        number: 7,
        id: "PR_7".into(),
        url: "https://github.com/x/y/pull/7".into(),
        state: PrState::Merged,
        head_ref: "feat/a".into(),
        base_ref: "main".into(),
        comment_count: 0,
        mergeable: None,
    });

    let n = refresh_stack(&mut gh, &mut file, 0, NOW).unwrap();

    let pr = file.stacks[0].branches[0].pull_request.as_ref().unwrap();
    assert_eq!(pr.number, 7);
    assert!(pr.merged);
    assert_eq!(n, 1, "newly-merged count should include the discovered PR");
}

#[test]
fn discovery_prefers_open_then_highest_number() {
    let mut file = file_with(vec![b("feat/a")]);
    let mut gh = FakeGitHub::new();
    // Three PRs for the same head ref: a closed one, a merged older
    // one, and an open newer one. The open one wins.
    gh.seed_pr(PullRequestInfo {
        number: 10,
        id: "PR_10".into(),
        url: "u10".into(),
        state: PrState::Closed,
        head_ref: "feat/a".into(),
        base_ref: "main".into(),
        comment_count: 0,
        mergeable: None,
    });
    gh.seed_pr(PullRequestInfo {
        number: 11,
        id: "PR_11".into(),
        url: "u11".into(),
        state: PrState::Merged,
        head_ref: "feat/a".into(),
        base_ref: "main".into(),
        comment_count: 0,
        mergeable: None,
    });
    gh.seed_pr(PullRequestInfo {
        number: 12,
        id: "PR_12".into(),
        url: "u12".into(),
        state: PrState::Open,
        head_ref: "feat/a".into(),
        base_ref: "main".into(),
        comment_count: 0,
        mergeable: None,
    });

    refresh_stack(&mut gh, &mut file, 0, NOW).unwrap();
    let pr = file.stacks[0].branches[0].pull_request.as_ref().unwrap();
    assert_eq!(pr.number, 12);
    assert!(!pr.merged);
}

#[test]
fn discovery_is_noop_when_no_matching_pr_exists() {
    let mut file = file_with(vec![b("feat/a")]);
    let mut gh = FakeGitHub::new();
    refresh_stack(&mut gh, &mut file, 0, NOW).unwrap();
    assert!(file.stacks[0].branches[0].pull_request.is_none());
}

#[test]
fn refreshing_every_stack_adds_up_what_was_merged() {
    let merged = |number: u64, head: &str| PullRequestInfo {
        number,
        id: format!("PR_{number}"),
        url: format!("https://github.com/x/y/pull/{number}"),
        state: PrState::Merged,
        head_ref: head.into(),
        base_ref: "main".into(),
        comment_count: 0,
        mergeable: None,
    };
    let mut file = file_with(vec![b("feat/a"), b("feat/b")]);
    file.stacks.push(file_with(vec![b("other")]).stacks.remove(0));
    let mut gh = FakeGitHub::new();
    gh.seed_pr(merged(1, "feat/a"));
    gh.seed_pr(merged(2, "other"));

    assert_eq!(refresh_all(&mut gh, &mut file, NOW).unwrap(), 2);

    assert!(file.stacks[0].branches[0].is_merged());
    assert!(file.stacks[0].branches[1].pull_request.is_none());
    assert!(file.stacks[1].branches[0].is_merged());
    for stack in &file.stacks {
        assert_eq!(stack.last_refreshed_at.as_deref(), Some(NOW));
    }
    assert_eq!(refresh_all(&mut gh, &mut file, NOW).unwrap(), 0);
}
