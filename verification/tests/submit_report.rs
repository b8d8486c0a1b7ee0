//! What a submission tells the user.

use git_stack::domain::{
    Branch, Pool, PoolBranch, PoolPullRequest, PullRequest, Stack, SubmitAction, SubmitPlanItem,
    Trunk,
};
use git_stack::ops::submit::SubmitReport;
use git_stack::ops::submit_report::{pool_lines, stack_lines};

fn item(i: usize, branch: &str, action: SubmitAction) -> SubmitPlanItem {
    SubmitPlanItem { branch_index: i, branch: branch.into(), action }
}

fn trunk() -> Trunk {
    Trunk { branch: "main".into(), head: "m".into() }
}

#[test]
fn a_stack_reports_every_step() {
    let pr = |number: u64| {
        Some(PullRequest { number, id: "x".into(), url: format!("https://x/{number}"), merged: false })
    };
    let branch = |name: &str, pr: Option<PullRequest>| Branch {
        branch: name.into(),
        head: None,
        base: "m".into(),
        pull_request: pr,
    };
    let stack = Stack {
        prefix: None,
        trunk: trunk(),
        branches: vec![
            branch("a", pr(1)),
            branch("b", pr(2)),
            branch("c", pr(3)),
            branch("d", None),
        ],
        last_refreshed_at: None,
    };
    let report = SubmitReport {
        newly_merged: 1,
        pushed: Some(2),
        done: vec![
            item(0, "a", SubmitAction::SkipMerged),
            item(1, "b", SubmitAction::RefreshExisting { number: 2 }),
            item(2, "c", SubmitAction::Create { base: "b".into() }),
            item(3, "d", SubmitAction::SkipEmpty),
        ],
    };
    assert_eq!(
        stack_lines(&report, &stack, false),
        vec![
            "ℹ 1 PR(s) merged since last refresh",
            "✓ pushed 2 branch(es)",
            "ℹ PR #2 for b refreshed",
            "    https://x/2",
            "✓ created PR #3 for c",
            "    https://x/3",
            "ℹ skipping d (no commits)",
        ]
    );
    let idle = SubmitReport { newly_merged: 0, pushed: Some(0), done: vec![] };
    assert_eq!(stack_lines(&idle, &stack, false), vec!["ℹ nothing to push"]);
}

#[test]
fn a_pool_reports_under_its_name() {
    let pool = Pool {
        name: Some("q".into()),
        trunk: trunk(),
        branches: vec![PoolBranch {
            branch: "f".into(),
            head: None,
            base_branch: "main".into(),
            base: "m".into(),
            pull_request: Some(PoolPullRequest {
                number: 9,
                id: "x".into(),
                url: "https://x/9".into(),
                merged: false,
                comment_count: 0,
                seen_comment_count: 0,
                mergeable: None,
            }),
        }],
        last_refreshed_at: None,
    };
    let report = SubmitReport {
        newly_merged: 0,
        pushed: Some(1),
        done: vec![
            item(0, "f", SubmitAction::Create { base: "main".into() }),
            item(1, "g", SubmitAction::SkipEmpty),
        ],
    };
    assert_eq!(
        pool_lines(&report, &pool, false),
        vec![
            "✓ pool q: pushed 1 branch(es)",
            "✓ created PR #9 for f",
            "    https://x/9",
            "ℹ skipping g (no commits over its base)",
        ]
    );
    let idle = SubmitReport { newly_merged: 0, pushed: Some(0), done: vec![] };
    assert_eq!(pool_lines(&idle, &pool, false), vec!["ℹ pool q: nothing to push"]);
}
