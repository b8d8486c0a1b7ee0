//! Opening pull requests for a pool.

use git_stack::domain::{Pool, PoolBranch, PoolFile, PoolPullRequest, Trunk, SCHEMA_VERSION};
use git_stack::git::fake::FakeGit;
use git_stack::git::CommitSummary;
use git_stack::github::fake::FakeGitHub;
use git_stack::github::{PrState, PullRequestInfo};
use git_stack::ops::pool::submit::{submit, SubmitArgs};
use git_stack::ops::submit::SubmitReport;
use git_stack::ops::submit_report::pool_lines;

const NOW: &str = "2026-05-12T12:00:00Z";

fn file_with(branches: Vec<PoolBranch>) -> PoolFile {
    PoolFile {
        schema_version: SCHEMA_VERSION,
        repository: "test".into(),
        pools: vec![Pool {
            name: None,
            trunk: Trunk {
                branch: "main".into(),
                head: "trunk_sha".into(),
            },
            branches,
            last_refreshed_at: None,
        }],
    }
}

fn pb(name: &str, base_branch: &str) -> PoolBranch {
    PoolBranch {
        branch: name.into(),
        head: Some("h".into()),
        base_branch: base_branch.into(),
        base: "trunk_sha".into(),
        pull_request: None,
    }
}

fn args() -> SubmitArgs {
    SubmitArgs {
        pool: None,
        draft: false,
        remote: "origin".into(),
        no_refresh: true,
    }
}

#[test]
fn creates_a_pr_for_every_branch_without_one_using_its_own_base() {
    // Two branches, different bases, neither has a PR yet.
    let mut file = file_with(vec![pb("fix/typo", "main"), pb("hotfix", "release/Q2")]);
    let mut git = FakeGit::new("fix/typo");
    git.seed_commits(
        "main",
        "fix/typo",
        vec![CommitSummary {
            subject: "Fix typo".into(),
            body: String::new(),
        }],
    );
    git.seed_commits(
        "release/Q2",
        "hotfix",
        vec![CommitSummary {
            subject: "Hotfix".into(),
            body: "details".into(),
        }],
    );
    let mut gh = FakeGitHub::new();

    let mut report = SubmitReport::default();
    submit(&mut git, &mut gh, &mut file, &args(), NOW, &mut report).unwrap();

    let calls = gh.create_calls();
    assert_eq!(calls.len(), 2);
    // Pool members are independent — each PR targets its own base ref,
    // not a chain.
    assert!(calls
        .iter()
        .any(|c| c.head == "fix/typo" && c.base == "main"));
    assert!(calls
        .iter()
        .any(|c| c.head == "hotfix" && c.base == "release/Q2"));
    // Both branches now have stored PR data.
    for b in &file.pools[0].branches {
        assert!(b.pull_request.is_some(), "{} still missing PR", b.branch);
    }
}

#[test]
fn skips_branches_that_already_have_a_pr_and_only_refreshes_their_state() {
    let mut br = pb("feat/a", "main");
    br.pull_request = Some(PoolPullRequest {
        number: 7,
        id: "old".into(),
        url: "old-url".into(),
        merged: false,
        comment_count: 0,
        seen_comment_count: 0,
        mergeable: None,
    });
    let mut file = file_with(vec![br]);
    let mut git = FakeGit::new("feat/a");
    let mut gh = FakeGitHub::new();
    gh.seed_pr(PullRequestInfo {
        number: 7,
        id: "PR_new".into(),
        url: "https://github.com/x/y/pull/7".into(),
        state: PrState::Open,
        head_ref: "feat/a".into(),
        base_ref: "main".into(),
        comment_count: 3,
        mergeable: Some(true),
    });

    let mut report = SubmitReport::default();
    submit(&mut git, &mut gh, &mut file, &args(), NOW, &mut report).unwrap();

    assert_eq!(gh.create_calls().len(), 0, "must not create a duplicate PR");
    let stored = file.pools[0].branches[0].pull_request.as_ref().unwrap();
    assert_eq!(stored.id, "PR_new");
    assert_eq!(stored.comment_count, 3);
    assert_eq!(stored.mergeable, Some(true));
}

#[test]
fn skips_empty_branches_without_pushing_or_pring_them() {
    // fix/empty has no commits over main; hotfix has one. Pool
    // submit should push only hotfix, only PR hotfix.
    let mut file = file_with(vec![pb("fix/empty", "main"), pb("hotfix", "main")]);
    let mut git = FakeGit::new("hotfix");
    git.seed_commits(
        "main",
        "hotfix",
        vec![CommitSummary {
            subject: "Fix".into(),
            body: String::new(),
        }],
    );
    let mut gh = FakeGitHub::new();

    let mut report = SubmitReport::default();
    submit(&mut git, &mut gh, &mut file, &args(), NOW, &mut report).unwrap();

    let pushes = git.pushes();
    assert_eq!(pushes.len(), 1);
    assert_eq!(pushes[0].branches, vec!["hotfix"]);
    let calls = gh.create_calls();
    assert_eq!(calls.len(), 1);
    assert_eq!(calls[0].head, "hotfix");
}

#[test]
fn a_pool_submission_that_fails_reports_as_far_as_it_came() {
    let mut file = file_with(vec![pb("fix", "main"), pb("gone", "main")]);
    file.pools[0].branches[1].pull_request = Some(PoolPullRequest {
        number: 99,
        id: "PR_99".into(),
        url: "u".into(),
        merged: false,
        comment_count: 0,
        seen_comment_count: 0,
        mergeable: None,
    });
    let mut git = FakeGit::new("fix");
    git.seed_commits(
        "main",
        "fix",
        vec![CommitSummary { subject: "Fix".into(), body: String::new() }],
    );
    let mut gh = FakeGitHub::new();

    let mut report = SubmitReport::default();
    assert!(submit(&mut git, &mut gh, &mut file, &args(), NOW, &mut report).is_err());

    let lines = pool_lines(&report, &file.pools[0], false);
    assert_eq!(lines.len(), 3);
    assert_eq!(lines[0], "✓ pool (default): pushed 2 branch(es)");
    assert!(lines[1].ends_with("for fix"), "{}", lines[1]);
}
