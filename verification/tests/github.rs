//! What GitHub is asked, and how its answers are read.

use git_stack::domain::StackError;
use git_stack::github::fake::FakeGitHub;
use git_stack::github::{
    best_pr, command_failed, read_created_number, read_mergeable, read_state, GhCli, GitHub,
    GitHubBackend, RecordedGitHub,
    PrState, PullRequestInfo,
};
use git_stack::ops::submit::{auto_title_body_from_commits, humanise};

const FIELDS: &str = "number,url,id,state,headRefName,baseRefName,comments,reviews,mergeable";

fn info(number: u64, head: &str, state: PrState) -> PullRequestInfo {
    PullRequestInfo {
        number,
        id: format!("PR_{number}"),
        url: "u".into(),
        state,
        head_ref: head.into(),
        base_ref: "main".into(),
        comment_count: 0,
        mergeable: None,
    }
}

#[test]
fn pull_requests_are_opened_and_looked_up() {
    let gh = GhCli::new("/repo");
    assert_eq!(gh.cwd(), "/repo");
    assert_eq!(
        gh.create_pr("f", "main", "T", "B", true),
        vec![
            "pr", "create", "--head", "f", "--base", "main", "--title", "T", "--body", "B",
            "--draft",
        ]
    );
    assert_eq!(gh.create_pr("f", "main", "T", "B", false).len(), 10);
    assert_eq!(gh.view_pr(7), vec!["pr", "view", "7", "--json", FIELDS]);
    assert_eq!(
        gh.find_pr_by_head("f"),
        vec!["pr", "list", "--head", "f", "--state", "all", "--json", FIELDS]
    );
    assert!(gh.list_my_open_prs().contains(&"@me".to_string()));
}

#[test]
fn states_are_read() {
    assert_eq!(read_state("OPEN").unwrap(), PrState::Open);
    assert_eq!(read_state("MERGED").unwrap(), PrState::Merged);
    assert_eq!(read_state("CLOSED").unwrap(), PrState::Closed);
    match read_state("DRAFT") {
        Err(StackError::GitHubApi(m)) => assert_eq!(m, "unknown PR state: DRAFT"),
        other => panic!("unexpected: {other:?}"),
    }
    assert_eq!(read_mergeable("MERGEABLE"), Some(true));
    assert_eq!(read_mergeable("CONFLICTING"), Some(false));
    assert_eq!(read_mergeable("UNKNOWN"), None);
}

#[test]
fn the_number_of_a_new_pull_request_ends_its_url() {
    assert_eq!(read_created_number("https://github.com/x/y/pull/42\n").unwrap(), 42);
    match read_created_number("https://github.com/x/y/pull/\n") {
        Err(StackError::GitHubApi(m)) => {
            assert_eq!(m, "could not parse PR number from: https://github.com/x/y/pull/")
        }
        other => panic!("unexpected: {other:?}"),
    }
    assert_eq!(command_failed(" no auth \n").message(), "github api error: no auth");
}

#[test]
fn the_best_pull_request_is_open_or_newest() {
    let list = vec![
        info(1, "f", PrState::Open),
        info(2, "g", PrState::Open),
        info(3, "f", PrState::Merged),
        info(4, "f", PrState::Closed),
    ];
    assert_eq!(best_pr(&list, "f").unwrap().number, 1);
    assert_eq!(best_pr(&list, "h"), None);
    let older = vec![info(1, "f", PrState::Merged), info(3, "f", PrState::Merged)];
    assert_eq!(best_pr(&older, "f").unwrap().number, 3);
}

#[test]
fn the_fake_numbers_new_pull_requests() {
    let mut gh = FakeGitHub::new();
    let first = gh.create_pr("a", "main", "A", "", false).unwrap();
    assert_eq!(first.number, 100);
    assert_eq!(first.url, "https://github.com/fake/repo/pull/100");
    let second = gh.create_pr("b", "main", "B", "", true).unwrap();
    assert_eq!(second.number, first.number + 1);
    assert_eq!(gh.view_pr(first.number).unwrap().head_ref, "a");
    assert_eq!(gh.find_pr_by_head("b").unwrap().unwrap().number, second.number);
    assert!(gh.find_pr_by_head("c").unwrap().is_none());
    assert!(matches!(gh.view_pr(1), Err(StackError::GitHubApi(_))));
    assert!(gh.create_calls()[1].draft);
}

#[test]
fn titles_come_from_commits_or_from_the_branch() {
    assert_eq!(humanise("feat/add-new_thing"), "Add New Thing");
    assert_eq!(humanise("plain"), "Plain");
    assert_eq!(humanise("feat/"), "");
    assert_eq!(
        auto_title_body_from_commits("feat/x-y", &vec![]),
        ("X Y".to_string(), String::new())
    );
}

#[test]
fn comments_and_reviews_add_up() {
    assert_eq!(git_stack::github::comment_total(2, 3, 4), 9);
    assert_eq!(git_stack::github::comment_total(0, 0, 0), 0);
    assert_eq!(git_stack::github::read_review_comments("11\n12\n"), 2);
    assert_eq!(git_stack::github::read_review_comments("\n"), 0);
    assert_eq!(
        GhCli::new("/repo").review_comments(7),
        vec!["api", "--paginate", "repos/{owner}/{repo}/pulls/7/comments", "--jq", ".[].id"]
    );
}

/// Answers every call with what it was asked.
struct Echo;

impl GitHubBackend for Echo {
    fn create_pr(
        &mut self,
        head: &str,
        base: &str,
        title: &str,
        body: &str,
        draft: bool,
    ) -> Result<PullRequestInfo, StackError> {
        Err(StackError::GitHubApi(format!("{head} {base} {title} {body} {draft}")))
    }

    fn view_pr(&mut self, number: u64) -> Result<PullRequestInfo, StackError> {
        Err(StackError::GitHubApi(format!("view {number}")))
    }

    fn find_pr_by_head(&mut self, branch: &str) -> Result<Option<PullRequestInfo>, StackError> {
        Err(StackError::GitHubApi(format!("find {branch}")))
    }

    fn list_my_open_prs(&mut self) -> Result<Vec<PullRequestInfo>, StackError> {
        Err(StackError::GitHubApi("mine".into()))
    }
}

#[test]
fn a_recorded_hub_answers_as_it_does_alone() {
    fn told<T: std::fmt::Debug>(r: Result<T, StackError>) -> String {
        match r {
            Err(StackError::GitHubApi(m)) => m,
            other => panic!("unexpected: {other:?}"),
        }
    }
    let mut hub = RecordedGitHub::new(Echo);
    assert_eq!(told(hub.create_pr("h", "b", "t", "x", true)), "h b t x true");
    assert_eq!(told(hub.view_pr(7)), "view 7");
    assert_eq!(told(hub.find_pr_by_head("f")), "find f");
    assert_eq!(told(hub.list_my_open_prs()), "mine");
}
