//! Pools: what comes in, what goes out, what is shown.

use git_stack::clock::current_instant;
use git_stack::domain::{
    Branch, Pool, PoolBranch, PoolFile, PoolPullRequest, Stack, StackError, StackFile, Trunk,
};
use git_stack::git::fake::FakeGit;
use git_stack::github::fake::FakeGitHub;
use git_stack::github::{PrState, PullRequestInfo};
use git_stack::ops::pool::add::{add, AddArgs};
use git_stack::ops::pool::init::{prepare, record, InitArgs};
use git_stack::ops::pool::list::{emit_text, list_output, look, renew, survey};
use git_stack::ops::pool::prune::{prune, refresh_targets, targets};
use git_stack::ops::pool::rebase::{
    outcome_lines, preflight, rebase_branch, BranchOutcome, Pass, PassStep,
};
use git_stack::ops::pool::refresh::mark_seen;
use git_stack::ops::pool::remove::remove;
use git_stack::ops::target_branch;
use git_stack::ops::pool::{resolve_pool_index, resolve_pool_index_for_branch};

const NOW: &str = "2026-05-12T12:00:00Z";

fn no_stacks() -> StackFile {
    StackFile::empty("github.com:flashingpumpkin/demo")
}

fn no_pools() -> PoolFile {
    PoolFile::empty("github.com:flashingpumpkin/demo")
}

fn git(branches: &[&str]) -> FakeGit {
    let mut git = FakeGit::new("main");
    git.seed_rev("main", "m");
    for b in branches {
        git.seed_rev(b, "h");
    }
    git
}

fn add_args(pool: Option<&str>, branches: &[&str]) -> AddArgs {
    AddArgs {
        pool: pool.map(|p| p.to_string()),
        base: None,
        branches: branches.iter().map(|b| b.to_string()).collect(),
    }
}

fn add_now(file: &mut PoolFile, pool: Option<&str>, branch: &str) -> Result<usize, StackError> {
    add(
        &mut git(&[branch]),
        &mut FakeGitHub::new(),
        &no_stacks(),
        file,
        &add_args(pool, &[branch]),
    )
}

fn init_args(branch: &str, adopt: bool) -> InitArgs {
    InitArgs {
        pool: None,
        base: None,
        adopt,
        worktree: None,
        no_worktree: true,
        branch: branch.into(),
    }
}

fn merged_pr(number: u64) -> PoolPullRequest {
    PoolPullRequest {
        number,
        id: format!("PR_{number}"),
        url: format!("https://example/{number}"),
        merged: true,
        comment_count: 0,
        seen_comment_count: 0,
        mergeable: None,
    }
}

fn open_pr(number: u64, comments: u64, seen: u64, mergeable: Option<bool>) -> PoolPullRequest {
    PoolPullRequest {
        merged: false,
        comment_count: comments,
        seen_comment_count: seen,
        mergeable,
        ..merged_pr(number)
    }
}

fn invalid<T: std::fmt::Debug>(r: Result<T, StackError>) -> String {
    match r {
        Err(StackError::InvalidArgs(m)) => m,
        other => panic!("unexpected: {other:?}"),
    }
}

#[test]
fn add_auto_creates_default_pool_and_records_branch() {
    let mut file = no_pools();
    add_now(&mut file, None, "feature-1").unwrap();
    assert_eq!(file.pools.len(), 1, "exactly one pool, the default one");
    assert!(file.pools[0].name.is_none());
    let names: Vec<&str> =
        file.pools[0].branches.iter().map(|b| b.branch.as_str()).collect();
    assert_eq!(names, vec!["feature-1"]);
    assert_eq!(file.pools[0].branches[0].base_branch, "main");
    assert_eq!(file.pools[0].branches[0].base, "m");
}

#[test]
fn add_to_named_pool_separates_from_default() {
    let mut file = no_pools();
    add_now(&mut file, None, "a").unwrap();
    add_now(&mut file, Some("review-queue"), "b").unwrap();
    assert_eq!(file.pools.len(), 2);
    let named = file
        .pools
        .iter()
        .find(|p| p.name.as_deref() == Some("review-queue"))
        .expect("named pool must exist");
    let default = file
        .pools
        .iter()
        .find(|p| p.name.is_none())
        .expect("default pool must exist");
    assert_eq!(default.branches[0].branch, "a");
    assert_eq!(named.branches[0].branch, "b");
}

#[test]
fn add_refuses_branch_already_in_pool() {
    let mut file = no_pools();
    add_now(&mut file, None, "x").unwrap();
    assert_eq!(invalid(add_now(&mut file, None, "x")), "branch `x` is already in a pool");
    assert_eq!(file.pools[0].branches.len(), 1);
}

#[test]
fn add_refuses_stacked_and_missing_branches() {
    let mut file = no_pools();
    let mut stacks = no_stacks();
    stacks.stacks.push(Stack {
        prefix: None,
        trunk: Trunk { branch: "main".into(), head: "m".into() },
        branches: vec![Branch {
            branch: "s".into(),
            head: None,
            base: "m".into(),
            pull_request: None,
        }],
        last_refreshed_at: None,
    });
    let stacked = add(
        &mut git(&["s"]),
        &mut FakeGitHub::new(),
        &stacks,
        &mut file,
        &add_args(None, &["s"]),
    );
    assert_eq!(
        invalid(stacked),
        "branch `s` is already in a stack; remove it with `stack drop` first"
    );
    let missing = add(
        &mut git(&[]),
        &mut FakeGitHub::new(),
        &no_stacks(),
        &mut file,
        &add_args(None, &["gone"]),
    );
    assert_eq!(invalid(missing), "branch `gone` does not exist locally");
    assert!(file.pools.is_empty());
}

#[test]
fn add_takes_the_base_from_the_pull_request() {
    let mut file = no_pools();
    let mut git = git(&["f"]);
    git.seed_rev("release/Q2", "r");
    let mut gh = FakeGitHub::new();
    gh.seed_pr(PullRequestInfo {
        number: 5,
        id: "PR_5".into(),
        url: "u5".into(),
        state: PrState::Open,
        head_ref: "f".into(),
        base_ref: "release/Q2".into(),
        comment_count: 0,
        mergeable: None,
    });
    add(&mut git, &mut gh, &no_stacks(), &mut file, &add_args(None, &["f"])).unwrap();
    assert_eq!(file.pools[0].branches[0].base_branch, "release/Q2");
    assert_eq!(file.pools[0].branches[0].base, "r");
}

#[test]
fn remove_drops_branch_from_pool_but_leaves_git_branch_alone() {
    let mut file = no_pools();
    add_now(&mut file, None, "y").unwrap();
    assert_eq!(remove(&mut file, "y").unwrap(), "(default)");
    assert!(file.pools[0].branches.is_empty());
}

#[test]
fn remove_defaults_to_the_current_branch() {
    assert_eq!(target_branch(Some("a".into()), Ok(None)).unwrap(), "a");
    assert_eq!(target_branch(None, Ok(Some("b".into()))).unwrap(), "b");
    assert!(target_branch(None, Ok(None)).is_err());
    match remove(&mut no_pools(), "b") {
        Err(StackError::Other(m)) => assert_eq!(m, "branch `b` is not in any pool"),
        other => panic!("unexpected: {other:?}"),
    }
}

#[test]
fn list_json_emits_expected_shape() {
    let mut file = no_pools();
    add_now(&mut file, None, "z").unwrap();
    let flags = survey(&mut git(&["z"]), &file);
    let v = list_output(&file, &flags);
    assert_eq!(v.pools[0].branches[0].name, "z");
    assert!(!v.pools[0].branches[0].needs_rebase);
    assert!(!v.pools[0].branches[0].is_merged);
}

#[test]
fn list_text_shows_base_activity_and_conflicts() {
    let mut file = no_pools();
    for name in ["fix/typo", "chore/deps", "feat/new"] {
        add_now(&mut file, None, name).unwrap();
    }
    file.pools[0].last_refreshed_at = Some("2026-05-12T11:56:00Z".into());
    file.pools[0].branches[0].pull_request = Some(open_pr(50, 0, 0, None));
    file.pools[0].branches[1].pull_request = Some(open_pr(51, 3, 0, Some(true)));
    file.pools[0].branches[2].pull_request = Some(open_pr(52, 0, 0, Some(false)));
    let mut git = git(&[]);
    git.seed_rev("main", "m2");
    let flags = survey(&mut git, &file);
    let now = current_instant(Some(NOW));
    let stdout = emit_text(&file, &flags, now, false).join("\n");
    assert!(stdout.contains("(default)  ·  default base main  ·  refreshed 4m ago"), "{stdout}");
    assert!(stdout.contains("▲ needs rebase  ✉ 3 new comments"), "{stdout}");
    assert!(stdout.contains("⚠ conflicts"), "{stdout}");
    assert!(stdout.contains("https://example/50"), "{stdout}");
    // Looking clears what was new.
    mark_seen(&mut file, 0);
    let stdout = emit_text(&file, &flags, now, false).join("\n");
    assert!(!stdout.contains("new comment"), "{stdout}");
}

#[test]
fn listing_afresh_keeps_what_is_merged_and_looking_clears_the_unread() {
    let mut file = no_pools();
    add_now(&mut file, None, "a").unwrap();
    add_now(&mut file, Some("other"), "b").unwrap();
    let mut gh = FakeGitHub::new();
    for (number, head, state) in [(1, "a", PrState::Merged), (2, "b", PrState::Open)] {
        gh.seed_pr(PullRequestInfo {
            number,
            id: format!("PR_{number}"),
            url: "u".into(),
            state,
            head_ref: head.into(),
            base_ref: "main".into(),
            comment_count: 4,
            mergeable: None,
        });
    }
    renew(&mut gh, &mut file, NOW).unwrap();
    assert_eq!(file.pools[0].branches[0].branch, "a");
    assert!(file.pools[0].branches[0].is_merged());
    assert_eq!(file.pools[1].branches[0].unread_comments(), 4);
    look(&mut file);
    assert_eq!(file.pools[1].branches[0].unread_comments(), 0);
    assert_eq!(file.pools[0].last_refreshed_at.as_deref(), Some(NOW));
}

#[test]
fn prune_dry_run_writes_nothing() {
    let mut file = no_pools();
    add_now(&mut file, None, "merged-branch").unwrap();
    file.pools[0].branches[0].pull_request = Some(merged_pr(1));
    let list = targets(&file, None).unwrap();
    assert_eq!(list, vec![0]);

    let lines = prune(&mut file, &list, true, false);
    assert_eq!(
        lines,
        vec!["would drop 1 branch(es) from pool (default):", "  ○  merged-branch"]
    );
    assert_eq!(file.pools[0].branches[0].branch, "merged-branch");

    let lines = prune(&mut file, &list, false, false);
    assert_eq!(lines[0], "✓ dropped 1 branch(es) from pool (default):");
    assert!(file.pools[0].branches.is_empty());

    assert_eq!(prune(&mut file, &list, false, false), vec!["✓ no merged branches to prune"]);
}

#[test]
fn prune_refreshes_what_it_looks_at() {
    let mut file = no_pools();
    add_now(&mut file, None, "a").unwrap();
    add_now(&mut file, Some("other"), "b").unwrap();
    let mut gh = FakeGitHub::new();
    for (number, head) in [(1, "a"), (2, "b")] {
        gh.seed_pr(PullRequestInfo {
            number,
            id: format!("PR_{number}"),
            url: "u".into(),
            state: PrState::Merged,
            head_ref: head.into(),
            base_ref: "main".into(),
            comment_count: 0,
            mergeable: None,
        });
    }
    let list = targets(&file, Some("other")).unwrap();
    refresh_targets(&mut gh, &mut file, &list, NOW).unwrap();
    assert!(!file.pools[0].branches[0].is_merged());
    assert!(file.pools[1].branches[0].is_merged());
    assert_eq!(file.pools[1].last_refreshed_at.as_deref(), Some(NOW));
    assert_eq!(
        invalid(targets(&file, Some("nope"))),
        "no pool named `nope` in this repo"
    );
}

#[test]
fn init_creates_branch_worktree_and_records_in_pool() {
    let mut file = no_pools();
    let args = init_args("feature/new", false);
    let (branch, head) = prepare(&mut git(&[]), &no_stacks(), &file, &args).unwrap();
    assert_eq!((branch.as_str(), head.as_str()), ("main", "m"));
    let base = Trunk { branch, head };
    assert_eq!(record(&mut file, &args, &base, "m"), 0);
    assert_eq!(file.pools.len(), 1);
    let b = &file.pools[0].branches[0];
    assert_eq!(b.branch, "feature/new");
    assert_eq!(b.base_branch, "main");
    assert!(b.pull_request.is_none());
}

#[test]
fn init_refuses_when_branch_already_exists_without_adopt() {
    let args = init_args("already-here", false);
    assert_eq!(
        invalid(prepare(&mut git(&["already-here"]), &no_stacks(), &no_pools(), &args)),
        "branch `already-here` already exists; use --adopt to take it over"
    );
}

#[test]
fn init_adopt_takes_over_an_existing_branch() {
    let mut file = no_pools();
    let args = init_args("preexisting", true);
    let (branch, head) =
        prepare(&mut git(&["preexisting"]), &no_stacks(), &file, &args).unwrap();
    record(&mut file, &args, &Trunk { branch, head }, "h");
    assert_eq!(file.pools[0].branches[0].branch, "preexisting");
    assert_eq!(
        invalid(prepare(&mut git(&[]), &no_stacks(), &no_pools(), &init_args("gone", true))),
        "branch `gone` does not exist (adopt requires an existing branch)"
    );
}

#[test]
fn init_in_a_pool_starts_from_its_trunk() {
    let mut file = no_pools();
    file.pools.push(Pool {
        name: None,
        trunk: Trunk { branch: "release".into(), head: "r0".into() },
        branches: vec![],
        last_refreshed_at: None,
    });
    let mut git = git(&[]);
    git.seed_rev("release", "r1");
    let base = prepare(&mut git, &no_stacks(), &file, &init_args("n", false)).unwrap();
    assert_eq!(base, ("release".to_string(), "r1".to_string()));
    let mut named = init_args("n", false);
    named.base = Some("main".into());
    assert_eq!(prepare(&mut git, &no_stacks(), &file, &named).unwrap().0, "main");
}

#[test]
fn pools_are_found_by_name_and_by_branch() {
    let mut file = no_pools();
    assert_eq!(
        invalid(resolve_pool_index(&file, None)),
        "no pools tracked for this repo; add a branch with `pool add` first"
    );
    add_now(&mut file, Some("one"), "a").unwrap();
    assert_eq!(resolve_pool_index(&file, None).unwrap(), 0);
    add_now(&mut file, Some("two"), "b").unwrap();
    assert_eq!(
        invalid(resolve_pool_index(&file, None)),
        "multiple named pools tracked; pass --pool <name>"
    );
    assert_eq!(resolve_pool_index(&file, Some("two")).unwrap(), 1);
    assert_eq!(resolve_pool_index_for_branch(&file, "b").unwrap(), 1);
    let copy = file.pools[1].branches[0].clone();
    file.pools[0].branches.push(copy);
    assert!(matches!(
        resolve_pool_index_for_branch(&file, "b"),
        Err(StackError::Disambiguation(_))
    ));
}

fn pool_branch(name: &str, base: &str) -> PoolBranch {
    PoolBranch {
        branch: name.into(),
        head: Some("old".into()),
        base_branch: "main".into(),
        base: base.into(),
        pull_request: None,
    }
}

#[test]
fn rebase_goes_onto_the_remote_base_first() {
    let mut file = no_pools();
    file.pools.push(Pool {
        name: None,
        trunk: Trunk { branch: "main".into(), head: "m".into() },
        branches: vec![pool_branch("f", "m"), pool_branch("g", "m9")],
        last_refreshed_at: None,
    });
    let mut git = FakeGit::new("f");
    git.seed_rev("main", "local");
    git.seed_rev("refs/remotes/origin/main", "0123456789abcdef");
    git.seed_rev("f", "f2");
    let outcome = rebase_branch(&mut git, &mut file, 0, 0, "origin").unwrap();
    assert_eq!(file.pools[0].branches[0].base, "0123456789abcdef");
    assert_eq!(file.pools[0].branches[0].head.as_deref(), Some("f2"));
    assert_eq!(
        outcome_lines("f", "origin", &outcome),
        vec!["✓ rebased f onto main (0123456)"]
    );
    // A second run has nothing to do.
    let again = rebase_branch(&mut git, &mut file, 0, 0, "origin").unwrap();
    assert!(matches!(again, BranchOutcome::UpToDate));
    assert!(outcome_lines("f", "origin", &again).is_empty());
    git.seed_conflict("g");
    assert!(matches!(
        rebase_branch(&mut git, &mut file, 0, 1, "origin"),
        Err(StackError::RebaseConflict)
    ));
    assert_eq!(file.pools[0].branches[1].base, "m9");
}

#[test]
fn a_pass_rebases_every_branch_once() {
    let mut file = no_pools();
    file.pools.push(Pool {
        name: Some("q".into()),
        trunk: Trunk { branch: "main".into(), head: "m".into() },
        branches: vec![pool_branch("f", "m"), pool_branch("g", "m2")],
        last_refreshed_at: None,
    });
    let mut git = FakeGit::new("f");
    git.seed_rev("main", "m2");
    git.seed_rev("f", "f2");
    git.seed_rev("g", "g1");
    let mut pass = Pass::start(0);
    assert!(matches!(
        pass.advance(&mut git, &mut file, "origin").unwrap(),
        PassStep::Rebased(_)
    ));
    assert!(matches!(pass.advance(&mut git, &mut file, "origin").unwrap(), PassStep::Left(_)));
    match pass.advance(&mut git, &mut file, "origin").unwrap() {
        PassStep::Finished(line) => assert_eq!(line, "✓ pool q rebased"),
        other => panic!("unexpected: {other:?}"),
    }
    // Again: nothing has moved since.
    let mut pass = Pass::start(0);
    for _ in 0..2 {
        assert!(matches!(
            pass.advance(&mut git, &mut file, "origin").unwrap(),
            PassStep::Left(_)
        ));
    }
    match pass.advance(&mut git, &mut file, "origin").unwrap() {
        PassStep::Finished(line) => assert_eq!(line, "✓ pool q already up to date"),
        other => panic!("unexpected: {other:?}"),
    }
}

#[test]
fn rebase_skips_what_it_cannot_move() {
    let mut file = no_pools();
    let mut done = pool_branch("done", "m");
    done.pull_request = Some(merged_pr(1));
    let mut lost = pool_branch("lost", "m");
    lost.base_branch = "nowhere".into();
    file.pools.push(Pool {
        name: None,
        trunk: Trunk { branch: "main".into(), head: "m".into() },
        branches: vec![done, lost],
        last_refreshed_at: None,
    });
    let mut git = FakeGit::new("main");
    let first = rebase_branch(&mut git, &mut file, 0, 0, "origin").unwrap();
    assert!(matches!(first, BranchOutcome::Merged));
    let second = rebase_branch(&mut git, &mut file, 0, 1, "origin").unwrap();
    assert_eq!(
        outcome_lines("lost", "origin", &second),
        vec!["ℹ skipping lost: base ref `nowhere` not found (locally or on origin)"]
    );
    let replayed = BranchOutcome::Rebased {
        base: "main".into(),
        new_base: "abc".into(),
        rerere_replays: 2,
    };
    assert_eq!(
        outcome_lines("x", "origin", &replayed),
        vec!["✓ rebased x onto main (abc)", "  ↳ rerere replayed 2 resolutions"]
    );
}

#[test]
fn conflicts_are_announced_before_a_rebase() {
    let mut file = no_pools();
    add_now(&mut file, None, "ok").unwrap();
    add_now(&mut file, None, "bad").unwrap();
    assert!(preflight(&file.pools[0], false).is_empty());
    file.pools[0].branches[1].pull_request = Some(open_pr(9, 0, 0, Some(false)));
    assert_eq!(
        preflight(&file.pools[0], false),
        vec![
            "⚠ 1 branch(es) marked as conflicting on GitHub — expect rebase conflicts:",
            "    bad",
        ]
    );
}
