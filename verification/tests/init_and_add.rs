//! Making stacks, and growing them.

use git_stack::domain::{Branch, Pool, PoolBranch, PoolFile, StackError, StackFile, Trunk};
use git_stack::git::fake::FakeGit;
use git_stack::ops::add::{self, AddArgs, Staging};
use git_stack::ops::init::{self, InitArgs};
use git_stack::ops::pool::check_unpooled;
use git_stack::ops::{check_worktree_path, choose_worktree, default_worktree_path};

fn args(prefix: Option<&str>, branches: &[&str]) -> InitArgs {
    InitArgs {
        base: None,
        prefix: prefix.map(|p| p.to_string()),
        adopt: false,
        branches: branches.iter().map(|b| b.to_string()).collect(),
        worktree: None,
        no_worktree: true,
    }
}

fn no_pools() -> PoolFile {
    PoolFile::empty("r")
}

/// One pool with these branches.
fn pooled(branches: &[&str]) -> PoolFile {
    let mut pools = no_pools();
    pools.pools.push(Pool {
        name: None,
        trunk: trunk(),
        branches: branches
            .iter()
            .map(|b| PoolBranch {
                branch: b.to_string(),
                head: None,
                base_branch: "main".into(),
                base: "m".into(),
                pull_request: None,
            })
            .collect(),
        last_refreshed_at: None,
    });
    pools
}

fn trunk() -> Trunk {
    Trunk { branch: "main".into(), head: "m".into() }
}

/// A file with one stack of new branches, each at the head before it.
fn initialised(prefix: &str, branches: &[&str]) -> StackFile {
    let mut file = StackFile::empty("github.com:flashingpumpkin/demo");
    let names = init::full_names(&args(Some(prefix), branches)).unwrap();
    let heads: Vec<String> = names.iter().map(|_| "m".to_string()).collect();
    init::record(&mut file, Some(prefix.to_string()), trunk(), &names, &heads);
    file
}

fn invalid<T: std::fmt::Debug>(r: Result<T, StackError>) -> String {
    match r {
        Err(StackError::InvalidArgs(m)) => m,
        other => panic!("unexpected: {other:?}"),
    }
}

fn add_args(branch: &str, all: bool, update: bool, message: Option<&str>) -> AddArgs {
    AddArgs {
        branch: branch.into(),
        all,
        update,
        message: message.map(|m| m.to_string()),
    }
}

#[test]
fn init_creates_branches_and_checks_out_bottom() {
    let file = initialised("feat", &["auth", "api", "ui"]);
    assert_eq!(file.stacks[0].prefix.as_deref(), Some("feat"));
    let names: Vec<&str> =
        file.stacks[0].branches.iter().map(|b| b.branch.as_str()).collect();
    assert_eq!(names, vec!["feat/auth", "feat/api", "feat/ui"]);
    assert_eq!(file.stacks[0].branches.len(), 3);
}

#[test]
fn init_chains_bases_from_the_trunk_up() {
    let mut file = StackFile::empty("r");
    let names = vec!["a".to_string(), "b".to_string()];
    let mut heads: Vec<String> = Vec::new();
    assert_eq!(init::start_point("m", &heads), "m");
    heads.push("a1".into());
    assert_eq!(init::start_point("m", &heads), "a1");
    heads.push("b1".into());
    init::record(&mut file, None, trunk(), &names, &heads);
    assert_eq!(
        file.stacks[0].branches[1],
        Branch {
            branch: "b".into(),
            head: Some("b1".into()),
            base: "a1".into(),
            pull_request: None,
        }
    );
    assert_eq!(file.stacks[0].branches[0].base, "m");
    assert_eq!(file.stacks[0].last_refreshed_at, None);
}

#[test]
fn init_needs_a_branch() {
    assert_eq!(
        invalid(init::full_names(&args(None, &[]))),
        "supply at least one branch name (this CLI never prompts)"
    );
}

#[test]
fn init_refuses_branches_that_are_taken() {
    let file = initialised("feat", &["a", "b"]);
    let names = vec!["x".to_string(), "feat/b".to_string()];
    assert_eq!(
        invalid(init::check_free(&file, &names)),
        "branch `feat/b` is already in a stack; use `stack remove` first"
    );
    assert!(init::check_free(&file, &vec!["x".to_string()]).is_ok());
}

#[test]
fn init_and_adopt_disagree_on_existing_branches() {
    assert!(init::check_known("a", false, Ok(false)).is_ok());
    assert!(init::check_known("a", true, Ok(true)).is_ok());
    assert_eq!(
        invalid(init::check_known("a", true, Ok(false))),
        "branch `a` does not exist (adopt requires existing branches)"
    );
    assert_eq!(
        invalid(init::check_known("a", false, Ok(true))),
        "branch `a` already exists; use --adopt to take it over"
    );
    assert!(matches!(
        init::check_known("a", false, Err(StackError::Locked)),
        Err(StackError::Locked)
    ));
}

#[test]
fn init_finds_the_trunk_and_checks_every_branch() {
    let mut git = FakeGit::new("main");
    git.seed_rev("main", "m");
    git.seed_rev("dev", "d");
    git.seed_rev("feat/b", "b1");
    let file = StackFile::empty("r");

    let (found, names) =
        init::prepare(&mut git, &file, &no_pools(), &args(Some("new"), &["a", "b"])).unwrap();
    assert_eq!(found, trunk());
    assert_eq!(names, vec!["new/a", "new/b"]);

    let mut on_dev = args(None, &["x"]);
    on_dev.base = Some("dev".into());
    let (found, _) = init::prepare(&mut git, &file, &no_pools(), &on_dev).unwrap();
    assert_eq!(found, Trunk { branch: "dev".into(), head: "d".into() });
    on_dev.base = Some("gone".into());
    assert!(init::prepare(&mut git, &file, &no_pools(), &on_dev).is_err());

    assert_eq!(
        invalid(init::prepare(&mut git, &file, &no_pools(), &args(Some("feat"), &["a", "b"]))),
        "branch `feat/b` already exists; use --adopt to take it over"
    );
    let mut adopting = args(Some("feat"), &["b", "a"]);
    adopting.adopt = true;
    assert_eq!(
        invalid(init::prepare(&mut git, &file, &no_pools(), &adopting)),
        "branch `feat/a` does not exist (adopt requires existing branches)"
    );
    assert_eq!(
        invalid(init::prepare(
            &mut git,
            &initialised("s", &["a"]),
            &no_pools(),
            &args(Some("s"), &["a"]))),
        "branch `s/a` is already in a stack; use `stack remove` first"
    );
    assert_eq!(
        invalid(init::prepare(&mut git, &file, &no_pools(), &args(None, &[]))),
        "supply at least one branch name (this CLI never prompts)"
    );
}

#[test]
fn init_creates_worktree_at_explicit_path_and_checks_out_bottom_branch() {
    let chosen = choose_worktree(false, Some("/tmp/custom-wt".into()), "/home/u/Worktrees/r/a");
    assert_eq!(chosen.as_deref(), Some("/tmp/custom-wt"));
    let names = init::full_names(&args(Some("feat"), &["a", "b", "c"])).unwrap();
    assert_eq!(names[0], "feat/a");
}

#[test]
fn a_worktree_goes_below_the_home_directory() {
    let path = default_worktree_path("/home/u", "/src/git-stack", "feat/a");
    assert_eq!(path, "/home/u/Worktrees/git-stack/feat/a");
    assert_eq!(choose_worktree(false, None, &path), Some(path.clone()));
    assert_eq!(choose_worktree(true, Some("/x".into()), &path), None);
}

#[test]
fn init_refuses_when_worktree_path_exists() {
    assert!(check_worktree_path("/tmp/free", false).is_ok());
    assert_eq!(
        invalid(check_worktree_path("/tmp/taken", true)),
        "worktree path /tmp/taken already exists; pass --worktree to choose another or --no-worktree to skip"
    );
}

#[test]
fn add_appends_branch_using_prefix() {
    let mut file = initialised("feat", &["auth"]);
    let (index, full) = add::place(&file, &no_pools(), Some("feat/auth"), "api").unwrap();
    assert_eq!((index, full.as_str()), (0, "feat/api"));
    add::record(&mut file, index, &full, "p", "h");
    let b = file.stacks[0].branches.last().unwrap();
    assert_eq!(b.branch, "feat/api");
    assert_eq!(b.base, "p");
    assert_eq!(b.head.as_deref(), Some("h"));
    assert_eq!(add::place(&file, &no_pools(), Some("feat/api"), "ui").unwrap().1, "feat/ui");
}

#[test]
fn add_rejected_when_not_on_top() {
    let file = initialised("feat", &["a", "b", "c"]);
    assert_eq!(
        invalid(add::place(&file, &no_pools(), Some("feat/b"), "d")),
        "can only add branches on top of the stack (current top: feat/c)"
    );
}

#[test]
fn add_rejects_what_is_there() {
    let file = initialised("feat", &["a"]);
    assert_eq!(
        invalid(add::place(&file, &no_pools(), Some("feat/a"), "a")),
        "branch `feat/a` is already in a stack"
    );
    assert!(matches!(add::place(&file, &no_pools(), Some("main"), "x"), Err(StackError::NotInStack)));
    assert!(matches!(add::place(&file, &no_pools(), None, "x"), Err(StackError::Other(_))));
    assert!(add::check_new("feat/x", false).is_ok());
    assert_eq!(invalid(add::check_new("feat/x", true)), "branch `feat/x` already exists");
}

#[test]
fn add_stages_what_the_flags_say() {
    assert_eq!(add::staging(&add_args("b", false, false, None)), Staging::Nothing);
    assert_eq!(add::staging(&add_args("b", false, false, Some("m"))), Staging::Staged);
    assert_eq!(add::staging(&add_args("b", true, false, Some("m"))), Staging::All);
    assert_eq!(add::staging(&add_args("b", false, true, Some("m"))), Staging::KnownFiles);
    assert!(add::check_args(&add_args("b", true, false, Some("m"))).is_ok());
    assert_eq!(
        invalid(add::check_args(&add_args("b", true, false, None))),
        "-A/-u require -m <message>"
    );
    assert_eq!(
        invalid(add::check_args(&add_args("b", true, true, Some("m")))),
        "-A and -u are mutually exclusive"
    );
}

#[test]
fn branches_of_a_pool_stay_out_of_stacks() {
    let pools = pooled(&["mine", "feat/x"]);
    assert!(check_unpooled(&pools, &vec!["free".to_string()]).is_ok());
    assert_eq!(
        invalid(check_unpooled(&pools, &vec!["free".to_string(), "feat/x".to_string()])),
        "branch `feat/x` is already in a pool; use `pool remove` first"
    );

    let mut git = FakeGit::new("main");
    git.seed_rev("main", "m");
    git.seed_rev("mine", "h");
    let mut adopting = args(None, &["mine"]);
    adopting.adopt = true;
    assert_eq!(
        invalid(init::prepare(&mut git, &StackFile::empty("r"), &pools, &adopting)),
        "branch `mine` is already in a pool; use `pool remove` first"
    );
    assert_eq!(
        invalid(add::place(&initialised("feat", &["a"]), &pools, Some("feat/a"), "x")),
        "branch `feat/x` is already in a pool; use `pool remove` first"
    );
}
