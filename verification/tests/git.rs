//! What git is asked, and how its answers are read.

use git_stack::domain::StackError;
use git_stack::git::fake::FakeGit;
use git_stack::git::output::{
    allow_fast_forward, checkout_at_failed, command_failed, plan_fast_forward, read_commits,
    read_current_branch, read_has_commits, read_is_clean, read_origin_url, read_rebase_outcome,
    read_rerere_replays, read_trunk_branch, read_worktrees, remote_ref, FastForward,
};
use git_stack::git::{
    canonicalise_github_url, CommitSummary, Git, GitBackend, GitOps, RebaseOutcome, RecordedGit,
};

fn git() -> Git {
    Git::discover("/repo/sub", Some("/repo\n")).unwrap()
}

fn other<T: std::fmt::Debug>(r: Result<T, StackError>) -> String {
    match r {
        Err(StackError::Other(m)) => m,
        got => panic!("unexpected: {got:?}"),
    }
}

#[test]
fn a_checkout_is_found_or_not() {
    assert_eq!(git().cwd(), "/repo");
    match Git::discover("/nowhere", None) {
        Err(StackError::Other(m)) => assert_eq!(
            m,
            "not a git repository (or any of the parent directories): /nowhere"
        ),
        _ => panic!("a checkout was found"),
    }
}

#[test]
fn commands_run_in_the_checkout() {
    let g = git();
    assert_eq!(g.rev_parse("HEAD"), vec!["-C", "/repo", "rev-parse", "HEAD"]);
    assert_eq!(
        g.common_dir(),
        vec!["-C", "/repo", "rev-parse", "--path-format=absolute", "--git-common-dir"]
    );
    assert_eq!(g.origin_url(), vec!["-C", "/repo", "remote", "get-url", "origin"]);
    assert_eq!(
        g.current_branch(),
        vec!["-C", "/repo", "symbolic-ref", "--quiet", "--short", "HEAD"]
    );
    assert_eq!(
        g.is_ancestor("a", "b"),
        vec!["-C", "/repo", "merge-base", "--is-ancestor", "a", "b"]
    );
    assert_eq!(
        g.branch_exists("f"),
        vec!["-C", "/repo", "show-ref", "--verify", "--quiet", "refs/heads/f"]
    );
    assert_eq!(
        g.commits_between("main", "f"),
        vec!["-C", "/repo", "log", "--format=%H%x00%B%x1e", "main..f"]
    );
    assert_eq!(g.checkout("f"), vec!["-C", "/repo", "checkout", "f"]);
    assert_eq!(g.checkout_at("/wt", "f"), vec!["-C", "/wt", "checkout", "f"]);
    assert_eq!(g.create_branch("f", "s"), vec!["-C", "/repo", "checkout", "-b", "f", "s"]);
    assert_eq!(
        g.create_branch_no_checkout("f", "s"),
        vec!["-C", "/repo", "branch", "f", "s"]
    );
    assert_eq!(g.fetch("origin"), vec!["-C", "/repo", "fetch", "--prune", "origin"]);
    assert_eq!(
        g.fast_forward("main", "s"),
        vec!["-C", "/repo", "update-ref", "refs/heads/main", "s"]
    );
    assert_eq!(
        g.rebase_onto("n", "o", "f"),
        vec!["-C", "/repo", "rebase", "--onto", "n", "o", "f"]
    );
    assert_eq!(g.commit("msg"), vec!["-C", "/repo", "commit", "-q", "-m", "msg"]);
    assert_eq!(g.worktree_add("/wt", "f"), vec!["-C", "/repo", "worktree", "add", "/wt", "f"]);
    assert_eq!(
        g.worktree_remove("/wt", true),
        vec!["-C", "/repo", "worktree", "remove", "--force", "/wt"]
    );
    assert_eq!(g.worktree_status("/wt"), vec!["-C", "/wt", "status", "--porcelain"]);
}

#[test]
fn pushes_are_atomic_and_leased() {
    let branches = vec!["a".to_string(), "b".to_string()];
    assert_eq!(
        git().push_atomic("origin", &branches).unwrap(),
        vec!["-C", "/repo", "push", "--force-with-lease", "--atomic", "origin", "a", "b"]
    );
    assert_eq!(git().push_atomic("origin", &[]), None);
}

#[test]
fn a_rebase_leaves_its_marks_in_the_git_directory() {
    let marks = git().rebase_in_progress(Some(".git\n")).unwrap();
    assert_eq!(marks.0, "/repo/.git/rebase-merge");
    assert_eq!(marks.1, "/repo/.git/rebase-apply");
    let marks = git().rebase_in_progress(Some("/main/.git/worktrees/w\n")).unwrap();
    assert_eq!(marks.0, "/main/.git/worktrees/w/rebase-merge");
    assert!(git().rebase_in_progress(None).is_none());
}

#[test]
fn failures_name_the_command() {
    let args = vec!["checkout".to_string(), "x".to_string()];
    assert_eq!(command_failed(&args, "no such branch\n").message(), "git checkout x failed: no such branch");
    assert_eq!(
        checkout_at_failed("x", "/wt", " bad \n").message(),
        "git checkout x (in worktree /wt) failed: bad"
    );
}

#[test]
fn answers_are_trimmed() {
    assert_eq!(read_origin_url(Some("url\n")), Some("url".to_string()));
    assert_eq!(read_origin_url(Some("\n")), None);
    assert_eq!(read_origin_url(None), None);
    assert_eq!(read_current_branch(Ok("main\n".into())), Some("main".to_string()));
    assert_eq!(read_current_branch(Ok("".into())), None);
    assert_eq!(read_current_branch(Err(StackError::NotInStack)), None);
    assert!(read_has_commits("0\n", " \n"));
    assert!(read_has_commits("?", ""));
    assert!(!read_has_commits("3\n", ""));
    assert!(!read_has_commits("0\n", " M file\n"));
    assert!(!read_has_commits("3\n", " M file\n"));
    assert!(read_is_clean(" \n"));
    assert!(!read_is_clean(" M file\n"));
}

#[test]
fn the_trunk_is_the_remote_head_or_a_usual_name() {
    assert_eq!(read_trunk_branch(Some("origin/dev\n"), Ok(true), Ok(true)).unwrap(), "dev");
    assert_eq!(read_trunk_branch(None, Ok(true), Ok(true)).unwrap(), "main");
    assert_eq!(read_trunk_branch(Some("odd"), Ok(false), Ok(true)).unwrap(), "master");
    assert_eq!(
        other(read_trunk_branch(None, Ok(false), Ok(false))),
        "could not determine default trunk branch; pass --base"
    );
}

#[test]
fn only_ancestors_are_fast_forwarded() {
    assert_eq!(remote_ref("origin", "main"), "refs/remotes/origin/main");
    assert!(matches!(
        plan_fast_forward(Ok("a".into()), Ok("a".into())),
        Ok(FastForward::Unchanged)
    ));
    assert!(matches!(
        plan_fast_forward(Ok("a".into()), Err(StackError::NotInStack)),
        Ok(FastForward::Unchanged)
    ));
    assert!(plan_fast_forward(Err(StackError::NotInStack), Ok("a".into())).is_err());
    match plan_fast_forward(Ok("a".into()), Ok("b".into())) {
        Ok(FastForward::Compare { local, remote }) => assert_eq!((local, remote), ("a".into(), "b".into())),
        _ => panic!("nothing to compare"),
    }
    assert!(allow_fast_forward("main", "origin", Ok(true)).is_ok());
    assert_eq!(
        other(allow_fast_forward("main", "origin", Ok(false))),
        "main has diverged from origin/main; manual intervention required"
    );
}

#[test]
fn a_failed_rebase_in_progress_is_a_conflict() {
    assert!(read_rebase_outcome(true, true, "rebase", "").is_ok());
    assert!(matches!(
        read_rebase_outcome(false, true, "rebase", ""),
        Err(StackError::RebaseConflict)
    ));
    assert_eq!(other(read_rebase_outcome(false, false, "rebase", "boom\n")), "rebase failed: boom");
}

#[test]
fn replayed_resolutions_are_counted() {
    let out = "Auto-merging f\nResolved 'f' using previous resolution.\nResolved 'g' using previous resolution.\n";
    assert_eq!(read_rerere_replays(out), 2);
    assert_eq!(read_rerere_replays("Resolved 'f' by hand\n"), 0);
}

#[test]
fn commits_are_read_with_subject_and_body() {
    let raw = "sha2\0Second\n\nmore\nlines\n\x1e\nsha1\0First\n\x1e\n";
    let commits = read_commits(raw);
    assert_eq!(commits.len(), 2);
    assert_eq!(commits[0].subject, "Second");
    assert_eq!(commits[0].body, "more\nlines");
    assert_eq!(commits[1].subject, "First");
    assert_eq!(commits[1].body, "");
    assert!(read_commits("\n").is_empty());
}

#[test]
fn worktrees_are_read_with_their_branches() {
    let raw = "worktree /main\nHEAD a\nbranch refs/heads/main\n\nworktree /detached\nHEAD b\ndetached\n\nworktree /wt\nHEAD c\nbranch refs/heads/feat/a\n";
    assert_eq!(
        read_worktrees(raw),
        vec![
            ("/main".to_string(), "main".to_string()),
            ("/wt".to_string(), "feat/a".to_string()),
        ]
    );
    assert!(read_worktrees("").is_empty());
}

#[test]
fn every_url_form_names_the_same_repository() {
    for head in ["git@github.com:", "ssh://git@github.com/", "https://github.com/", "http://github.com/"] {
        for tail in ["", ".git", ".git\n"] {
            assert_eq!(
                canonicalise_github_url(&format!("{head}acme/api{tail}")).as_deref(),
                Some("github.com:acme/api")
            );
        }
    }
    assert_eq!(canonicalise_github_url("https://example.com/acme/api"), None);
}

#[test]
fn the_fake_answers_from_what_it_was_given() {
    let mut fake = FakeGit::default();
    assert_eq!(fake.current_branch().unwrap(), None);
    assert_eq!(other(fake.rev_parse("x")), "unknown revision: x");
    fake.seed_rev("x", "1");
    fake.seed_rev("x", "2");
    assert_eq!(fake.rev_parse("x").unwrap(), "2");
    assert!(fake.branch_exists("x").unwrap());
    assert!(!fake.branch_exists("y").unwrap());
    fake.seed_ancestor("1", "2");
    assert!(fake.is_ancestor("1", "2").unwrap());
    assert!(!fake.is_ancestor("2", "1").unwrap());
    assert!(fake.commits_between("a", "b").unwrap().is_empty());
}

#[test]
fn commits_beyond_the_start_point_are_counted() {
    let git = Git::discover("/r", Some("/r\n")).unwrap();
    assert_eq!(
        git.has_commits("feat/a", "main"),
        vec!["-C", "/r", "rev-list", "--count", "main..feat/a"]
    );
}

/// Answers every call with what it was asked.
struct Echo;

impl GitBackend for Echo {
    fn current_branch(&mut self) -> Result<Option<String>, StackError> {
        Ok(Some("here".into()))
    }

    fn rev_parse(&mut self, rev: &str) -> Result<String, StackError> {
        Ok(format!("sha of {rev}"))
    }

    fn is_ancestor(&mut self, ancestor: &str, descendant: &str) -> Result<bool, StackError> {
        Ok(ancestor == "old" && descendant == "new")
    }

    fn push_atomic(&mut self, remote: &str, branches: &[String]) -> Result<(), StackError> {
        Err(StackError::Other(format!("{remote}: {}", branches.join(","))))
    }

    fn commits_between(
        &mut self,
        base: &str,
        branch: &str,
    ) -> Result<Vec<CommitSummary>, StackError> {
        Ok(vec![CommitSummary { subject: base.into(), body: branch.into() }])
    }

    fn branch_exists(&mut self, name: &str) -> Result<bool, StackError> {
        Ok(name == "here")
    }

    fn trunk_branch(&mut self) -> Result<String, StackError> {
        Ok("dev".into())
    }

    fn rebase_onto(
        &mut self,
        new_base: &str,
        old_base: &str,
        branch: &str,
    ) -> Result<RebaseOutcome, StackError> {
        Ok(RebaseOutcome { rerere_replays: new_base.len() + 10 * old_base.len() + 100 * branch.len() })
    }
}

#[test]
fn a_recorded_backend_answers_as_it_does_alone() {
    let mut git = RecordedGit::new(Echo);
    assert_eq!(git.current_branch().unwrap().as_deref(), Some("here"));
    assert_eq!(git.rev_parse("x").unwrap(), "sha of x");
    assert!(git.is_ancestor("old", "new").unwrap());
    assert!(!git.is_ancestor("new", "old").unwrap());
    assert_eq!(
        git.push_atomic("origin", &["a".to_string(), "b".to_string()]).unwrap_err().message(),
        "origin: a,b"
    );
    let commits = git.commits_between("main", "a").unwrap();
    assert_eq!((commits[0].subject.as_str(), commits[0].body.as_str()), ("main", "a"));
    assert!(git.branch_exists("here").unwrap());
    assert!(!git.branch_exists("there").unwrap());
    assert_eq!(git.trunk_branch().unwrap(), "dev");
    assert_eq!(git.rebase_onto("n", "oo", "bbb").unwrap().rerere_replays, 321);
}
