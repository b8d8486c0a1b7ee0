//! What a pool learns from its pull requests.

use git_stack::domain::{Pool, PoolBranch, PoolFile, PoolPullRequest, Trunk, SCHEMA_VERSION};
use git_stack::github::fake::FakeGitHub;
use git_stack::github::{PrState, PullRequestInfo};
use git_stack::ops::pool::refresh::{
    drop_merged, mark_seen, refresh_pool, render_report, PoolRefreshChange, PoolRefreshKind,
    PoolRefreshReport,
};

const NOW: &str = "2026-05-12T12:00:00Z";

fn file_with(branches: Vec<PoolBranch>) -> PoolFile {
    PoolFile {
        schema_version: SCHEMA_VERSION,
        repository: "test".into(),
        pools: vec![Pool {
            name: None,
            trunk: Trunk {
                branch: "main".into(),
                head: "trunk_sha".into(),
            },
            branches,
            last_refreshed_at: None,
        }],
    }
}

fn pb(name: &str) -> PoolBranch {
    PoolBranch {
        branch: name.into(),
        head: Some("h".into()),
        base_branch: "main".into(),
        base: "trunk_sha".into(),
        pull_request: None,
    }
}

fn pr(number: u64, head: &str, state: PrState, comments: u64) -> PullRequestInfo {
    PullRequestInfo {
        number,
        id: format!("PR_{number}"),
        url: format!("https://github.com/x/y/pull/{number}"),
        state,
        head_ref: head.into(),
        base_ref: "main".into(),
        comment_count: comments,
        mergeable: None,
    }
}

#[test]
fn discovers_pr_by_head_when_branch_has_no_stored_pr() {
    let mut file = file_with(vec![pb("feat/a")]);
    let mut gh = FakeGitHub::new();
    gh.seed_pr(pr(42, "feat/a", PrState::Open, 0));

    let report = refresh_pool(&mut gh, &mut file, 0, NOW).unwrap();

    // The change log mentions discovery.
    let kinds: Vec<_> = report.changes.iter().map(|c| &c.kind).collect();
    assert!(matches!(
        kinds[0],
        PoolRefreshKind::PrDiscovered { number: 42 }
    ));
    // The PR is now stored on the branch.
    let stored = file.pools[0].branches[0].pull_request.as_ref().unwrap();
    assert_eq!(stored.number, 42);
    assert!(!stored.merged);
}

#[test]
fn reports_new_comments_since_last_seen() {
    let mut file = file_with(vec![PoolBranch {
        branch: "feat/a".into(),
        head: Some("h".into()),
        base_branch: "main".into(),
        base: "trunk_sha".into(),
        pull_request: Some(PoolPullRequest {
            number: 1,
            id: "PR_1".into(),
            url: "u".into(),
            merged: false,
            comment_count: 2,
            seen_comment_count: 2,
            mergeable: None,
        }),
    }]);
    let mut gh = FakeGitHub::new();
    gh.seed_pr(pr(1, "feat/a", PrState::Open, 5));

    let report = refresh_pool(&mut gh, &mut file, 0, NOW).unwrap();
    assert!(report.changes.iter().any(|c| matches!(
        &c.kind,
        PoolRefreshKind::NewComments {
            new: 3,
            total: 5,
            ..
        }
    )));

    // Seen baseline NOT bumped automatically.
    let stored = file.pools[0].branches[0].pull_request.as_ref().unwrap();
    assert_eq!(stored.comment_count, 5);
    assert_eq!(stored.seen_comment_count, 2);

    mark_seen(&mut file, 0);
    let stored = file.pools[0].branches[0].pull_request.as_ref().unwrap();
    assert_eq!(stored.seen_comment_count, 5);
}

#[test]
fn drops_merged_branches() {
    let mut file = file_with(vec![pb("feat/a"), pb("feat/b")]);
    let mut gh = FakeGitHub::new();
    gh.seed_pr(pr(1, "feat/a", PrState::Merged, 0));
    gh.seed_pr(pr(2, "feat/b", PrState::Open, 0));

    refresh_pool(&mut gh, &mut file, 0, NOW).unwrap();
    let dropped = drop_merged(&mut file, 0);
    assert_eq!(dropped, vec!["feat/a"]);
    let remaining: Vec<_> = file.pools[0]
        .branches
        .iter()
        .map(|b| b.branch.as_str())
        .collect();
    assert_eq!(remaining, vec!["feat/b"]);
}

#[test]
fn no_change_when_nothing_moved() {
    let mut file = file_with(vec![PoolBranch {
        branch: "feat/a".into(),
        head: Some("h".into()),
        base_branch: "main".into(),
        base: "trunk_sha".into(),
        pull_request: Some(PoolPullRequest {
            number: 1,
            id: "PR_1".into(),
            url: "u".into(),
            merged: false,
            comment_count: 3,
            seen_comment_count: 3,
            mergeable: None,
        }),
    }]);
    let mut gh = FakeGitHub::new();
    gh.seed_pr(pr(1, "feat/a", PrState::Open, 3));

    let report = refresh_pool(&mut gh, &mut file, 0, NOW).unwrap();
    assert!(
        report.changes.is_empty(),
        "no changes expected, got {:?}",
        report.changes
    );
}

#[test]
fn reparents_when_base_branch_was_merged() {
    // Pool branch `feat/child` is based on `feat/parent`. `feat/parent`'s
    // PR has just been merged into `main`. Refresh must rewrite
    // `feat/child.base_branch` to `main` (and surface a Reparented
    // change). This is the mechanism that lets `pool rebase` do the
    // right thing automatically.
    let mut file = file_with(vec![PoolBranch {
        branch: "feat/child".into(),
        head: Some("h".into()),
        base_branch: "feat/parent".into(),
        base: "parent_sha".into(),
        pull_request: Some(PoolPullRequest {
            number: 10,
            id: "PR_10".into(),
            url: "u".into(),
            merged: false,
            comment_count: 0,
            seen_comment_count: 0,
            mergeable: None,
        }),
    }]);
    let mut gh = FakeGitHub::new();
    // child's PR targets feat/parent.
    let mut child = pr(10, "feat/child", PrState::Open, 0);
    child.base_ref = "feat/parent".into();
    gh.seed_pr(child);
    // parent's PR is merged into main.
    let mut parent = pr(20, "feat/parent", PrState::Merged, 0);
    parent.base_ref = "main".into();
    gh.seed_pr(parent);

    let report = refresh_pool(&mut gh, &mut file, 0, NOW).unwrap();
    let reparent = report
        .changes
        .iter()
        .find_map(|c| match &c.kind {
            PoolRefreshKind::Reparented { from, to } => Some((from.clone(), to.clone())),
            _ => None,
        })
        .expect("Reparented change expected");
    assert_eq!(reparent, ("feat/parent".into(), "main".into()));
    assert_eq!(file.pools[0].branches[0].base_branch, "main");
}

#[test]
fn reparents_branch_without_pr_when_stored_base_is_merged() {
    // No PR on the pool branch itself, but its stored base_branch
    // has been merged. Refresh should still walk up.
    let mut file = file_with(vec![PoolBranch {
        branch: "feat/no-pr".into(),
        head: Some("h".into()),
        base_branch: "feat/parent".into(),
        base: "parent_sha".into(),
        pull_request: None,
    }]);
    let mut gh = FakeGitHub::new();
    // No PR exists for feat/no-pr.
    let mut parent = pr(20, "feat/parent", PrState::Merged, 0);
    parent.base_ref = "main".into();
    gh.seed_pr(parent);

    let report = refresh_pool(&mut gh, &mut file, 0, NOW).unwrap();
    assert!(report
        .changes
        .iter()
        .any(|c| matches!(&c.kind, PoolRefreshKind::Reparented { to, .. } if to == "main")));
    assert_eq!(file.pools[0].branches[0].base_branch, "main");
}

#[test]
fn a_refresh_is_told_change_by_change() {
    let mut file = file_with(vec![pb("feat/a"), pb("feat/b")]);
    let mut gh = FakeGitHub::new();
    gh.seed_pr(pr(42, "feat/a", PrState::Open, 0));
    let report = refresh_pool(&mut gh, &mut file, 0, NOW).unwrap();
    assert_eq!(
        render_report(&report, &file.pools[0], false, false),
        vec![
            "Pool (default) — changes:",
            "  ● feat/a  #42  (PR discovered)",
            "      https://github.com/x/y/pull/42",
        ]
    );

    let again = refresh_pool(&mut gh, &mut file, 0, NOW).unwrap();
    assert_eq!(
        render_report(&again, &file.pools[0], false, false),
        vec!["✓ pool (default) up to date — no changes since last refresh"]
    );
}

#[test]
fn every_kind_of_change_has_its_line() {
    let change = |kind| PoolRefreshChange { branch: "b".into(), kind };
    let report = PoolRefreshReport {
        changes: vec![
            change(PoolRefreshKind::Merged { number: 1 }),
            change(PoolRefreshKind::NewComments { number: 2, new: 1, total: 4 }),
            change(PoolRefreshKind::NewComments { number: 2, new: 3, total: 7 }),
            change(PoolRefreshKind::MergeableChanged { number: 3, mergeable: Some(false) }),
            change(PoolRefreshKind::MergeableChanged { number: 3, mergeable: Some(true) }),
            change(PoolRefreshKind::MergeableChanged { number: 3, mergeable: None }),
            change(PoolRefreshKind::Reparented { from: "old".into(), to: "main".into() }),
        ],
        newly_merged_branches: vec!["b".into()],
    };
    let pool = &file_with(vec![pb("b")]).pools[0];
    assert_eq!(
        render_report(&report, pool, false, false),
        vec![
            "Pool (default) — changes:",
            "  ✓ b  #1  merged",
            "  ✉ b  #2  1 new comment (4 total)",
            "  ✉ b  #2  3 new comments (7 total)",
            "  ⚠ b  #3  now conflicts with trunk",
            "  ● b  #3  cleanly mergeable",
            "  ○ b  #3  mergeable state unknown",
            "  ⇡ b  old → main (base merged; reparented)",
        ]
    );
    let coloured = render_report(&report, pool, true, false);
    assert_eq!(coloured[0], "Pool \u{1b}[1;38;5;81m(default)\u{1b}[0m — changes:");
}

#[test]
fn a_second_refresh_of_a_pool_changes_nothing_but_the_time() {
    // One branch with a pull request, one found by its head, one parked on a
    // base that was merged.
    let mut file = file_with(vec![pb("feat/a"), pb("feat/b"), pb("feat/c")]);
    file.pools[0].branches[2].base_branch = "landed".into();
    let mut gh = FakeGitHub::new();
    gh.seed_pr(pr(1, "feat/a", PrState::Open, 3));
    gh.seed_pr(pr(2, "feat/b", PrState::Merged, 0));
    gh.seed_pr(pr(3, "landed", PrState::Merged, 0));

    let first = refresh_pool(&mut gh, &mut file, 0, NOW).unwrap();
    assert!(!first.changes.is_empty());
    assert_eq!(file.pools[0].branches[2].base_branch, "main");
    let mut expected = file.clone();

    let second = refresh_pool(&mut gh, &mut file, 0, "later").unwrap();
    assert!(second.changes.is_empty());
    assert!(second.newly_merged_branches.is_empty());
    expected.pools[0].last_refreshed_at = Some("later".into());
    assert_eq!(file, expected);
}
