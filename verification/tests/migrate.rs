//! Taking over the old file, and saying where things are.

use git_stack::cli::{ending, where_lines};
use git_stack::cli::migrate::{migrated_path, no_legacy_file, report, take_over, unreadable};
use git_stack::domain::{
    Branch, PullRequest, Stack, StackError, StackFile, Trunk, SCHEMA_VERSION,
};
use git_stack::store::{legacy_gh_stack_candidate, legacy_gh_stack_path, RepoIdentity, StorePaths};

fn sample() -> StackFile {
    StackFile {
        schema_version: SCHEMA_VERSION,
        repository: "github.com:acme/old-name".into(),
        stacks: vec![Stack {
            prefix: Some("feat/auth".into()),
            trunk: Trunk {
                branch: "main".into(),
                head: "90f5035636185a1ba82e738737f6c09f8f0835b6".into(),
            },
            branches: vec![Branch {
                branch: "feat/auth/01-init".into(),
                head: Some("e20ef72102ee72b36838b645a0f65f1a20b89a57".into()),
                base: "cbe1036ae4c94e1decccd1b718fd2552235c5a35".into(),
                pull_request: Some(PullRequest {
                    number: 42,
                    id: "PR_kwexample002".into(),
                    url: "https://github.com/acme/platform-api/pull/42".into(),
                    merged: false,
                }),
            }],
            last_refreshed_at: None,
        }],
    }
}

fn identity(url: &str) -> RepoIdentity {
    RepoIdentity::from_git(Some(url), Ok("/repo/.git".into())).unwrap()
}

#[test]
fn migrate_imports_legacy_gh_stack_file() {
    let id = identity("git@github.com:acme/platform-api.git");
    let existing = StackFile::empty(&id.repository);
    let written = take_over(sample(), &existing, &id, false).unwrap();
    assert_eq!(written.schema_version, 1);
    assert_eq!(written.repository, "github.com:acme/platform-api");
    assert_eq!(written.stacks[0].branches[0].pull_request.as_ref().unwrap().number, 42);
    let paths = StorePaths::for_identity("/store", &id);
    assert_eq!(paths.stacks_json(), "/store/repos/github.com_acme_platform-api/stacks.json");
    assert_eq!(migrated_path("/repo/.git"), "/repo/.git/gh-stack.migrated");
    assert_eq!(
        report(&written, &paths.stacks_json(), "/repo/.git/gh-stack.migrated"),
        vec![
            "✓ migrated 1 stack(s) for github.com:acme/platform-api → /store/repos/github.com_acme_platform-api/stacks.json",
            "ℹ legacy file renamed to /repo/.git/gh-stack.migrated",
        ]
    );
}

#[test]
fn migrate_refuses_to_overwrite_without_force() {
    let id = identity("git@github.com:foo/bar.git");
    let existing = take_over(sample(), &StackFile::empty(&id.repository), &id, false).unwrap();
    match take_over(sample(), &existing, &id, false) {
        Err(StackError::Other(m)) => assert_eq!(
            m,
            "central store already has 1 stack(s) for `github.com:foo/bar`; pass --force to overwrite"
        ),
        other => panic!("unexpected: {other:?}"),
    }
    assert!(take_over(sample(), &existing, &id, true).is_ok());
}

#[test]
fn migrate_needs_a_readable_file() {
    assert_eq!(legacy_gh_stack_candidate("/repo/.git"), "/repo/.git/gh-stack");
    assert_eq!(
        legacy_gh_stack_path("/repo/.git", true).as_deref(),
        Some("/repo/.git/gh-stack")
    );
    assert_eq!(legacy_gh_stack_path("/repo/.git", false), None);
    assert_eq!(no_legacy_file("/repo").message(), "no .git/gh-stack file found in /repo");
    assert_eq!(unreadable("/f", "bad").message(), "failed to parse /f: bad");
}

#[test]
fn worktrees_share_the_same_store_entry() {
    let url = "git@github.com:flashingpumpkin/git-stack.git";
    let main = RepoIdentity::from_git(Some(url), Ok("/tmp/main/.git".into())).unwrap();
    let wt = RepoIdentity::from_git(Some(url), Ok("/elsewhere/.git".into())).unwrap();
    assert_eq!(main, wt);
    let paths = StorePaths::for_identity("/store", &main);
    let lines = where_lines(&main, &paths);
    assert_eq!(
        lines,
        vec![
            "repository = github.com:flashingpumpkin/git-stack",
            "slug       = github.com_flashingpumpkin_git-stack",
            "store      = /store/repos/github.com_flashingpumpkin_git-stack",
            "stacks.json= /store/repos/github.com_flashingpumpkin_git-stack/stacks.json",
        ]
    );
}

#[test]
fn the_program_ends_with_the_code_of_the_error() {
    assert_eq!(ending(&Ok(())), (None, 0));
    assert_eq!(
        ending(&Err(StackError::Locked)),
        (Some("✗ store is locked by another `stack` process; try again".to_string()), 8)
    );
}
