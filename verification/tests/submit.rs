//! Opening pull requests for a stack.

use git_stack::domain::{Branch, PullRequest, Stack, StackFile, Trunk, SCHEMA_VERSION};
use git_stack::git::fake::FakeGit;
use git_stack::git::CommitSummary;
use git_stack::github::fake::FakeGitHub;
use git_stack::github::{PrState, PullRequestInfo};
use git_stack::ops::submit::{submit, SubmitArgs, SubmitReport};
use git_stack::ops::submit_report::stack_lines;

const NOW: &str = "2026-05-12T12:00:00Z";

fn file_with(branches: Vec<Branch>) -> StackFile {
    StackFile {
        schema_version: SCHEMA_VERSION,
        repository: "test".into(),
        stacks: vec![Stack {
            prefix: Some("feat".into()),
            trunk: Trunk {
                branch: "main".into(),
                head: "trunk_sha".into(),
            },
            branches,
            last_refreshed_at: None,
        }],
    }
}

fn b(name: &str) -> Branch {
    Branch {
        branch: name.into(),
        head: Some("h".into()),
        base: "x".into(),
        pull_request: None,
    }
}

fn args() -> SubmitArgs {
    SubmitArgs {
        auto: true,
        draft: false,
        remote: "origin".into(),
        // Default for these tests: skip refresh so we exercise the
        // create-PR path directly. The dedicated refresh test below
        // sets no_refresh: false.
        no_refresh: true,
    }
}

#[test]
fn pushes_then_creates_one_pr_per_branch_with_chained_bases() {
    let mut file = file_with(vec![b("feat/a"), b("feat/b"), b("feat/c")]);
    let mut git = FakeGit::new("feat/c");
    git.seed_commits(
        "main",
        "feat/a",
        vec![CommitSummary {
            subject: "Add A".into(),
            body: "details about A".into(),
        }],
    );
    // feat/b has two commits → humanised branch name as title.
    git.seed_commits(
        "feat/a",
        "feat/b",
        vec![
            CommitSummary {
                subject: "First b commit".into(),
                body: String::new(),
            },
            CommitSummary {
                subject: "Second b commit".into(),
                body: String::new(),
            },
        ],
    );
    git.seed_commits(
        "feat/b",
        "feat/c",
        vec![CommitSummary {
            subject: "Add C".into(),
            body: String::new(),
        }],
    );
    let mut gh = FakeGitHub::new();

    let mut report = SubmitReport::default();
    submit(&mut git, &mut gh, &mut file, &args(), NOW, &mut report).unwrap();

    let pushes = git.pushes();
    assert_eq!(pushes.len(), 1);
    assert_eq!(pushes[0].remote, "origin");
    assert_eq!(pushes[0].branches, vec!["feat/a", "feat/b", "feat/c"]);

    let calls = gh.create_calls();
    assert_eq!(calls.len(), 3);
    assert_eq!(calls[0].head, "feat/a");
    assert_eq!(calls[0].base, "main");
    assert_eq!(calls[0].title, "Add A");
    assert_eq!(calls[0].body, "details about A");
    assert_eq!(calls[1].head, "feat/b");
    assert_eq!(calls[1].base, "feat/a");
    assert_eq!(calls[1].title, "B");
    assert!(calls[1].body.contains("First b commit"));
    assert!(calls[1].body.contains("Second b commit"));
    assert_eq!(calls[2].head, "feat/c");
    assert_eq!(calls[2].base, "feat/b");

    // Store updated with PR data for every branch.
    for br in &file.stacks[0].branches {
        assert!(br.pull_request.is_some(), "{} missing pr", br.branch);
    }
}

#[test]
fn skips_create_when_pr_already_exists_and_refreshes_state() {
    let mut br = b("feat/a");
    br.pull_request = Some(PullRequest {
        number: 42,
        id: "old".into(),
        url: "old".into(),
        merged: false,
    });
    let mut file = file_with(vec![br]);
    let mut git = FakeGit::new("feat/a");
    let mut gh = FakeGitHub::new();
    gh.seed_pr(PullRequestInfo {
        number: 42,
        id: "PR_new".into(),
        url: "https://github.com/x/y/pull/42".into(),
        state: PrState::Merged,
        head_ref: "feat/a".into(),
        base_ref: "main".into(),
        comment_count: 0,
        mergeable: None,
    });

    let mut report = SubmitReport::default();
    submit(&mut git, &mut gh, &mut file, &args(), NOW, &mut report).unwrap();

    assert_eq!(gh.create_calls().len(), 0, "must not create a new PR");
    let pr = file.stacks[0].branches[0].pull_request.as_ref().unwrap();
    assert!(pr.merged);
    assert_eq!(pr.id, "PR_new");
}

#[test]
fn skips_empty_branches_without_attempting_to_create_a_pr() {
    // feat/a has no commits over trunk (e.g. a worktree that was
    // created but never modified). feat/b builds on it and has
    // a real commit. Submit should: skip feat/a entirely, push only
    // feat/b, and chain feat/b's PR base to trunk (not to the empty
    // feat/a) so GitHub doesn't reject "no commits".
    let mut file = file_with(vec![b("feat/a"), b("feat/b")]);
    let mut git = FakeGit::new("feat/b");
    // No commits seeded for (main, feat/a) → commits_between returns [].
    git.seed_commits(
        "main",
        "feat/b",
        vec![CommitSummary {
            subject: "B work".into(),
            body: String::new(),
        }],
    );
    let mut gh = FakeGitHub::new();

    let mut report = SubmitReport::default();
    submit(&mut git, &mut gh, &mut file, &args(), NOW, &mut report).unwrap();

    // Only feat/b was pushed; feat/a's empty branch was skipped.
    let pushes = git.pushes();
    assert_eq!(pushes.len(), 1);
    assert_eq!(pushes[0].branches, vec!["feat/b"]);

    // Only one PR was created (for feat/b) and it bases on trunk.
    let calls = gh.create_calls();
    assert_eq!(calls.len(), 1);
    assert_eq!(calls[0].head, "feat/b");
    assert_eq!(calls[0].base, "main");
}

#[test]
fn auto_refresh_marks_merged_pr_and_excludes_it_from_push() {
    // The scenario from the bug report: feat/a's PR was squash-merged
    // on GitHub since the last refresh. submit (default: refresh on)
    // must see this, mark feat/a as merged, and NOT push feat/a or
    // create a duplicate PR for it. feat/b is still active and chains
    // to trunk (not to merged feat/a).
    let mut a = b("feat/a");
    a.pull_request = Some(PullRequest {
        number: 1,
        id: "old".into(),
        url: "old".into(),
        merged: false, // store still says open
    });
    let mut file = file_with(vec![a, b("feat/b")]);
    let mut git = FakeGit::new("feat/b");
    git.seed_commits(
        "main",
        "feat/b",
        vec![CommitSummary {
            subject: "B work".into(),
            body: String::new(),
        }],
    );
    let mut gh = FakeGitHub::new();
    // Source of truth: PR #1 IS merged.
    gh.seed_pr(PullRequestInfo {
        number: 1,
        id: "PR_a".into(),
        url: "https://github.com/x/y/pull/1".into(),
        state: PrState::Merged,
        head_ref: "feat/a".into(),
        base_ref: "main".into(),
        comment_count: 0,
        mergeable: None,
    });

    let mut a = args();
    a.no_refresh = false; // explicitly exercise the refresh path
    let mut report = SubmitReport::default();
    submit(&mut git, &mut gh, &mut file, &a, NOW, &mut report).unwrap();

    // feat/a is now marked merged in the store.
    let pr_a = file.stacks[0].branches[0].pull_request.as_ref().unwrap();
    assert!(pr_a.merged, "feat/a should be marked merged after refresh");

    // Only feat/b was pushed; feat/a was filtered out by active_branches().
    let pushes = git.pushes();
    assert_eq!(pushes.len(), 1);
    assert_eq!(pushes[0].branches, vec!["feat/b"]);

    // Only feat/b got a fresh PR; we didn't create a duplicate for
    // feat/a or chain feat/b's base to it.
    let calls = gh.create_calls();
    assert_eq!(calls.len(), 1);
    assert_eq!(calls[0].head, "feat/b");
    assert_eq!(calls[0].base, "main", "chain should skip merged feat/a");
}

#[test]
fn skips_merged_branches_for_base_chaining() {
    // feat/a is merged → feat/b's base should be trunk, not feat/a.
    let mut a = b("feat/a");
    a.pull_request = Some(PullRequest {
        number: 1,
        id: "x".into(),
        url: "u".into(),
        merged: true,
    });
    let mut file = file_with(vec![a, b("feat/b")]);
    let mut git = FakeGit::new("feat/b");
    git.seed_commits(
        "main",
        "feat/b",
        vec![CommitSummary {
            subject: "B".into(),
            body: String::new(),
        }],
    );
    let mut gh = FakeGitHub::new();

    let mut report = SubmitReport::default();
    submit(&mut git, &mut gh, &mut file, &args(), NOW, &mut report).unwrap();

    let calls = gh.create_calls();
    assert_eq!(calls.len(), 1);
    assert_eq!(calls[0].head, "feat/b");
    assert_eq!(
        calls[0].base, "main",
        "merged a should be skipped, base = trunk"
    );
}

#[test]
fn a_submission_that_fails_reports_as_far_as_it_came() {
    let mut file = file_with(vec![b("feat/a"), b("feat/b")]);
    file.stacks[0].branches[1].pull_request = Some(PullRequest {
        number: 99,
        id: "PR_99".into(),
        url: "u".into(),
        merged: false,
    });
    let mut git = FakeGit::new("feat/a");
    git.seed_commits(
        "main",
        "feat/a",
        vec![CommitSummary { subject: "Add A".into(), body: String::new() }],
    );
    let mut gh = FakeGitHub::new();

    let mut report = SubmitReport::default();
    // The pull request that is recorded for the second branch is gone.
    assert!(submit(&mut git, &mut gh, &mut file, &args(), NOW, &mut report).is_err());

    assert_eq!(report.newly_merged, 0);
    assert_eq!(report.pushed, Some(2));
    assert_eq!(report.done.len(), 1);
    let made = file.stacks[0].branches[0].pull_request.clone().unwrap();
    assert_eq!(
        stack_lines(&report, &file.stacks[0], false),
        vec![
            "✓ pushed 2 branch(es)".to_string(),
            format!("✓ created PR #{} for feat/a", made.number),
            format!("    {}", made.url),
        ]
    );

    // Where it does not come to anything, nothing is told.
    let mut elsewhere = FakeGit::new("main");
    assert!(submit(&mut elsewhere, &mut gh, &mut file, &args(), NOW, &mut report).is_err());
    assert!(stack_lines(&report, &file.stacks[0], false).is_empty());
}
