//! Where records are kept.

use git_stack::domain::{PoolFile, StackError, StackFile, SCHEMA_VERSION};
use git_stack::store::{
    document, framed, home, load, load_pools, lock_step, LockStep, RepoIdentity, StorePaths,
};

fn local(dir: &str) -> RepoIdentity {
    RepoIdentity::from_git(None, Ok(dir.to_string())).unwrap()
}

#[test]
fn home_honours_env_override() {
    assert_eq!(home(Some("/tmp/git-stack-test-home"), Some("/data")), "/tmp/git-stack-test-home");
}

#[test]
fn home_falls_back_to_the_data_directory() {
    assert_eq!(home(None, Some("/data")), "/data/git-stack");
    assert_eq!(home(None, None), ".git-stack");
}

#[test]
fn a_local_repository_is_known_by_the_digest_of_its_directory() {
    let id = local("abc");
    assert_eq!(id.repository, "local:ba7816bf8f01cfea");
    assert_eq!(id.slug, "local_ba7816bf8f01cfea");
    let not_github =
        RepoIdentity::from_git(Some("git@gitlab.com:a/b.git"), Ok("abc".into())).unwrap();
    assert_eq!(not_github, id);
    assert_ne!(local("abd"), id);
    assert!(matches!(
        RepoIdentity::from_git(None, Err(StackError::Other("no dir".into()))),
        Err(StackError::Other(_))
    ));
}

#[test]
fn clones_of_one_repository_share_an_entry() {
    let ssh = RepoIdentity::from_git(Some("git@github.com:o/r.git"), Ok("/a".into())).unwrap();
    let https = RepoIdentity::from_git(Some("https://github.com/o/r"), Ok("/b".into())).unwrap();
    assert_eq!(ssh, https);
    assert_eq!(ssh.slug, "github.com_o_r");
}

#[test]
fn files_lie_below_the_slug() {
    let paths = StorePaths::for_identity("/h", &local("abc"));
    assert_eq!(paths.dir, "/h/repos/local_ba7816bf8f01cfea");
    assert_eq!(paths.pools_json(), format!("{}/pools.json", paths.dir));
    assert_eq!(paths.lock_file(), format!("{}/stacks.json.lock", paths.dir));
    assert_eq!(paths.rebase_state(), format!("{}/stacks.json.rebase", paths.dir));
}

#[test]
fn the_lock_is_waited_for_five_seconds() {
    assert_eq!(lock_step(true, 9999), LockStep::Acquired);
    assert_eq!(lock_step(false, 0), LockStep::Wait { millis: 100 });
    assert_eq!(lock_step(false, 4999), LockStep::Wait { millis: 100 });
    assert_eq!(lock_step(false, 5000), LockStep::GiveUp);
}

#[test]
fn what_was_written_is_found_again() {
    let bytes = framed(b"{}".to_vec());
    assert_eq!(bytes, b"{}\n");
    assert_eq!(document(Some(bytes.clone())), Some(bytes));
    assert_eq!(document(Some(vec![])), None);
    assert_eq!(document(None), None);
}

#[test]
fn a_missing_file_is_an_empty_one() {
    let id = local("abc");
    let empty = load(None, &id);
    assert_eq!(empty.schema_version, SCHEMA_VERSION);
    assert_eq!(empty.repository, "local:ba7816bf8f01cfea");
    assert!(empty.stacks.is_empty());
    let stored = StackFile::empty("kept");
    assert_eq!(load(Some(stored), &id).repository, "kept");
    assert!(load_pools(None, &id).pools.is_empty());
    assert_eq!(load_pools(Some(PoolFile::empty("p")), &id).repository, "p");
}
