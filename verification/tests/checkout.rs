//! Going to branches and pull requests, and picking one.

use git_stack::domain::{
    Branch, Pool, PoolBranch, PoolFile, PullRequest, Stack, StackError, StackFile, Trunk,
    SCHEMA_VERSION,
};
use git_stack::git::fake::FakeGit;
use git_stack::github::fake::FakeGitHub;
use git_stack::github::{PrState, PullRequestInfo};
use git_stack::ops::checkout::{
    check_tracked, local_start, pr_chain, record_chain, requested_branch, resolve_all, wanted_pr,
};
use git_stack::ops::switch::{current_picker, picker, strip_name, BranchChoice};

fn no_pools() -> PoolFile {
    PoolFile::empty("r")
}

fn info(number: u64, head: &str, state: PrState) -> PullRequestInfo {
    PullRequestInfo {
        number,
        id: format!("PR_{number}"),
        url: format!("u{number}"),
        state,
        head_ref: head.into(),
        base_ref: "main".into(),
        comment_count: 0,
        mergeable: None,
    }
}

fn trunk() -> Trunk {
    Trunk { branch: "main".into(), head: "m".into() }
}

fn stack(prefix: Option<&str>, names: &[&str]) -> Stack {
    Stack {
        prefix: prefix.map(|p| p.to_string()),
        trunk: trunk(),
        branches: names
            .iter()
            .map(|n| Branch {
                branch: n.to_string(),
                head: None,
                base: "m".into(),
                pull_request: None,
            })
            .collect(),
        last_refreshed_at: None,
    }
}

#[test]
fn a_number_asks_for_a_pull_request() {
    assert_eq!(wanted_pr("42"), Some(42));
    assert_eq!(wanted_pr("feat/42"), None);
    assert_eq!(wanted_pr(""), None);
    assert_eq!(wanted_pr("18446744073709551615"), Some(u64::MAX));
    assert_eq!(wanted_pr("18446744073709551616"), None);
}

#[test]
fn a_branch_in_two_stacks_is_ambiguous() {
    let file = StackFile {
        schema_version: SCHEMA_VERSION,
        repository: "r".into(),
        stacks: vec![stack(None, &["x"]), stack(None, &["x", "y"])],
    };
    assert!(matches!(check_tracked(&file, "x"), Err(StackError::Disambiguation(_))));
    assert!(check_tracked(&file, "y").is_ok());
}

#[test]
fn a_pull_request_becomes_a_stack() {
    let mut git = FakeGit::new("main");
    git.seed_rev("main", "m");
    git.seed_rev("refs/remotes/origin/feat/a", "a");
    let mut gh = FakeGitHub::new();
    gh.seed_pr(info(7, "feat/a", PrState::Merged));

    let (name, chain) = pr_chain(&mut git, &mut gh, 7).unwrap();
    assert_eq!(name, "main");
    assert_eq!(chain, vec![info(7, "feat/a", PrState::Merged)]);
    assert_eq!(local_start(&mut git, "feat/a").unwrap(), Some("a".to_string()));
    git.seed_rev("feat/a", "a");
    assert_eq!(local_start(&mut git, "feat/a").unwrap(), None);

    let heads = resolve_all(&mut git, &vec!["feat/a".to_string()]).unwrap();
    assert_eq!(heads, vec!["a"]);
    let mut file = StackFile::empty("r");
    record_chain(&mut file, &no_pools(), trunk(), &chain, &heads, "2026-05-12T12:00:00Z").unwrap();
    assert_eq!(
        file.stacks[0],
        Stack {
            prefix: None,
            trunk: trunk(),
            branches: vec![Branch {
                branch: "feat/a".into(),
                head: Some("a".into()),
                base: "m".into(),
                pull_request: Some(PullRequest {
                    number: 7,
                    id: "PR_7".into(),
                    url: "u7".into(),
                    merged: true,
                }),
            }],
            last_refreshed_at: Some("2026-05-12T12:00:00Z".into()),
        }
    );
    assert_eq!(requested_branch(&chain, 7).as_deref(), Some("feat/a"));
    assert_eq!(requested_branch(&chain, 8), None);

    // A second time it is refused, and nothing changes.
    let before = file.clone();
    match record_chain(&mut file, &no_pools(), trunk(), &chain, &heads, "later") {
        Err(StackError::InvalidArgs(m)) => assert_eq!(
            m,
            "branch `feat/a` is already in a local stack; run `stack unstack` first"
        ),
        other => panic!("unexpected: {other:?}"),
    }
    assert_eq!(file, before);

    // So is one whose branch is in a pool.
    let mut empty = StackFile::empty("r");
    let mut pools = no_pools();
    pools.pools.push(Pool {
        name: None,
        trunk: trunk(),
        branches: vec![PoolBranch {
            branch: "feat/a".into(),
            head: None,
            base_branch: "main".into(),
            base: "m".into(),
            pull_request: None,
        }],
        last_refreshed_at: None,
    });
    match record_chain(&mut empty, &pools, trunk(), &chain, &heads, "later") {
        Err(StackError::InvalidArgs(m)) => {
            assert_eq!(m, "branch `feat/a` is already in a pool; use `pool remove` first")
        }
        other => panic!("unexpected: {other:?}"),
    }
    assert!(empty.stacks.is_empty());
}

#[test]
fn a_branch_that_the_remote_lacks_cannot_be_checked_out() {
    let mut git = FakeGit::new("main");
    match local_start(&mut git, "ghost") {
        Err(StackError::Other(m)) => {
            assert_eq!(m, "branch `ghost` not found on origin after fetch")
        }
        other => panic!("unexpected: {other:?}"),
    }
    assert!(resolve_all(&mut git, &vec!["ghost".to_string()]).is_err());
    assert!(matches!(
        pr_chain(&mut git, &mut FakeGitHub::new(), 9),
        Err(StackError::GitHubApi(_))
    ));
}

#[test]
fn the_picker_offers_the_stack_top_down() {
    let mut s = stack(Some("feat"), &["feat/a", "feat/long", "feat/c"]);
    s.branches[0].pull_request =
        Some(PullRequest { number: 3, id: "x".into(), url: "u".into(), merged: true });
    s.branches[1].pull_request =
        Some(PullRequest { number: 4, id: "x".into(), url: "u".into(), merged: false });
    let p = picker(&s, "feat/long").unwrap();
    let labels: Vec<&str> = p.options.iter().map(|o| o.label.as_str()).collect();
    assert_eq!(
        labels,
        vec!["○  c       (no PR)", "●  long    #4 open", "✓  a       #3 merged"]
    );
    assert_eq!(p.options[2].branch_name, "feat/a");
    assert_eq!(p.starting_index, 1);
    assert_eq!(p.header, "Switch branch in feat:");

    let plain = picker(&stack(None, &["x"]), "elsewhere").unwrap();
    assert_eq!(plain.starting_index, 0);
    assert_eq!(plain.header, "Switch branch:");
    match picker(&stack(None, &[]), "x") {
        Err(StackError::Other(m)) => assert_eq!(m, "stack has no branches"),
        other => panic!("unexpected: {other:?}"),
    }
}

#[test]
fn the_picker_needs_a_branch_of_a_stack() {
    let mut file = StackFile::empty("r");
    file.stacks.push(stack(None, &["a", "b"]));
    let p = current_picker(&file, Some("a")).unwrap();
    assert_eq!(p.options.len(), 2);
    assert_eq!(p.starting_index, 1);
    assert!(matches!(current_picker(&file, Some("x")), Err(StackError::NotInStack)));
    match current_picker(&file, None) {
        Err(StackError::Other(m)) => {
            assert_eq!(m, "detached HEAD; check out a branch first")
        }
        other => panic!("unexpected: {other:?}"),
    }
}

#[test]
fn names_are_shown_without_the_prefix() {
    let prefix = Some("feat".to_string());
    assert_eq!(strip_name(&prefix, "feat/auth"), "auth");
    assert_eq!(strip_name(&prefix, "feature"), "feature");
    assert_eq!(strip_name(&prefix, "fix/auth"), "fix/auth");
    assert_eq!(strip_name(&None, "feat/auth"), "feat/auth");
    let s = stack(Some("feat"), &[]);
    assert_eq!(strip_name(&s.prefix, &s.apply_prefix("deep/name")), "deep/name");
    let b = &stack(None, &["solo"]).branches[0];
    let choice = BranchChoice::from_branch(b, "other", &None, 6);
    assert_eq!(choice.label, "○  solo      (no PR)");
}
