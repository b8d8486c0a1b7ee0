//! Which repository a remote URL names.

use git_stack::git::canonicalise_github_url;

#[test]
fn canonicalises_ssh() {
    assert_eq!(
        canonicalise_github_url("git@github.com:acme/platform-api.git"),
        Some("github.com:acme/platform-api".into())
    );
}

#[test]
fn canonicalises_https() {
    assert_eq!(
        canonicalise_github_url("https://github.com/flashingpumpkin/git-stack"),
        Some("github.com:flashingpumpkin/git-stack".into())
    );
}

#[test]
fn canonicalises_https_dot_git() {
    assert_eq!(
        canonicalise_github_url("https://github.com/flashingpumpkin/git-stack.git"),
        Some("github.com:flashingpumpkin/git-stack".into())
    );
}

#[test]
fn returns_none_for_non_github() {
    assert_eq!(canonicalise_github_url("git@gitlab.com:foo/bar.git"), None);
}
