//! Which pull requests a pool takes over.

use git_stack::domain::{
    Branch, Pool, PoolBranch, PoolFile, Stack, StackFile, Trunk, SCHEMA_VERSION,
};
use git_stack::github::fake::FakeGitHub;
use git_stack::github::{GitHub, PrState, PullRequestInfo};
use git_stack::ops::pool::adopt::{
    classify, render_outcome, AdoptOutcome, AdoptedBranch, SkipReason,
};

fn pr(number: u64, head: &str, state: PrState) -> PullRequestInfo {
    PullRequestInfo {
        number,
        id: format!("PR_{number}"),
        url: format!("https://github.com/x/y/pull/{number}"),
        state,
        head_ref: head.into(),
        base_ref: "main".into(),
        comment_count: 0,
        mergeable: None,
    }
}

/// What becomes of each open pull request: adopted, or passed over and why.
fn classify_all(
    stacks: &StackFile,
    pools: &PoolFile,
    branches_local: &[&str],
    prs: &[PullRequestInfo],
) -> (Vec<String>, Vec<(String, &'static str)>) {
    let mut adopt = Vec::new();
    let mut skip = Vec::new();
    for pr in prs {
        let head = pr.head_ref.clone();
        if pr.state != PrState::Open {
            continue;
        }
        let local = branches_local.iter().any(|b| *b == head);
        match classify(stacks, pools, &head, local) {
            None => adopt.push(head),
            Some(SkipReason::NotLocal) => skip.push((head, "not_local")),
            Some(SkipReason::InStack) => skip.push((head, "in_stack")),
            Some(SkipReason::InPool) => skip.push((head, "in_pool")),
        }
    }
    (adopt, skip)
}

fn empty_stacks() -> StackFile {
    StackFile {
        schema_version: SCHEMA_VERSION,
        repository: "r".into(),
        stacks: vec![],
    }
}

fn empty_pools() -> PoolFile {
    PoolFile {
        schema_version: SCHEMA_VERSION,
        repository: "r".into(),
        pools: vec![],
    }
}

#[test]
fn classification_excludes_branches_in_stacks() {
    let mut stacks = empty_stacks();
    let pools = empty_pools();
    stacks.stacks.push(Stack {
        prefix: None,
        trunk: Trunk {
            branch: "main".into(),
            head: "h".into(),
        },
        branches: vec![Branch {
            branch: "feat/x".into(),
            head: None,
            base: "h".into(),
            pull_request: None,
        }],
        last_refreshed_at: None,
    });
    let prs = vec![
        pr(1, "feat/x", PrState::Open),
        pr(2, "feat/y", PrState::Open),
    ];
    let (adopt, skip) = classify_all(&stacks, &pools, &["feat/x", "feat/y"], &prs);
    assert_eq!(adopt, vec!["feat/y".to_string()]);
    assert_eq!(skip, vec![("feat/x".to_string(), "in_stack")]);
}

#[test]
fn classification_excludes_branches_already_in_pool() {
    let stacks = empty_stacks();
    let mut pools = empty_pools();
    pools.pools.push(Pool {
        name: None,
        trunk: Trunk {
            branch: "main".into(),
            head: "h".into(),
        },
        branches: vec![PoolBranch {
            branch: "feat/x".into(),
            head: None,
            base_branch: "main".into(),
            base: "h".into(),
            pull_request: None,
        }],
        last_refreshed_at: None,
    });
    let prs = vec![
        pr(1, "feat/x", PrState::Open),
        pr(2, "feat/y", PrState::Open),
    ];
    let (adopt, skip) = classify_all(&stacks, &pools, &["feat/x", "feat/y"], &prs);
    assert_eq!(adopt, vec!["feat/y".to_string()]);
    assert_eq!(skip, vec![("feat/x".to_string(), "in_pool")]);
}

#[test]
fn classification_excludes_non_local_branches() {
    let stacks = empty_stacks();
    let pools = empty_pools();
    let prs = vec![
        pr(1, "feat/local", PrState::Open),
        pr(2, "feat/remote", PrState::Open),
    ];
    let (adopt, skip) = classify_all(&stacks, &pools, &["feat/local"], &prs);
    assert_eq!(adopt, vec!["feat/local".to_string()]);
    assert_eq!(skip, vec![("feat/remote".to_string(), "not_local")]);
}

#[test]
fn list_my_open_prs_returns_only_open_state() {
    let mut gh = FakeGitHub::new();
    gh.seed_pr(pr(1, "feat/a", PrState::Open));
    gh.seed_pr(pr(2, "feat/b", PrState::Merged));
    gh.seed_pr(pr(3, "feat/c", PrState::Open));
    let prs = gh.list_my_open_prs().unwrap();
    let nums: Vec<u64> = prs.iter().map(|p| p.number).collect();
    assert_eq!(nums, vec![1, 3]);
}

#[test]
fn an_adoption_is_told_branch_by_branch() {
    let none = AdoptOutcome { adopted: vec![], skipped: vec![] };
    assert_eq!(
        render_outcome(&none, "(default)", false, false),
        vec!["✓ no open PRs authored by you in this repo"]
    );

    let outcome = AdoptOutcome {
        adopted: vec![AdoptedBranch {
            branch: "mine".into(),
            pr_number: 5,
            pr_url: "https://github.com/x/y/pull/5".into(),
        }],
        skipped: vec![
            ("far".into(), SkipReason::NotLocal),
            ("stacked".into(), SkipReason::InStack),
            ("pooled".into(), SkipReason::InPool),
        ],
    };
    assert_eq!(
        render_outcome(&outcome, "hot", false, false),
        vec![
            "✓ adopted 1 branch(es) into pool hot:",
            "  ● mine  #5",
            "      https://github.com/x/y/pull/5",
            "ℹ skipped 3:",
            "  ○ far  no local branch (run `gh pr checkout` first)",
            "  ○ stacked  already in a stack",
            "  ○ pooled  already in a pool",
        ]
    );
    let coloured = render_outcome(&outcome, "hot", false, true);
    assert_eq!(coloured[2], "      \u{1b}[4;38;5;250mhttps://github.com/x/y/pull/5\u{1b}[0m");
}
