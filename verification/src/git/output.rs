//! Reading what the `git` binary printed.

use vstd::prelude::*;

use crate::domain::error::{Fault, StackError};
use crate::git::{commit_views, CommitSummary, CommitView};
use crate::seqs;
use crate::text;

verus! {

/// The message for a git command that failed.
pub fn command_failed(args: &[String], stderr: &str) -> (r: StackError)
    ensures
        r@ == Fault::Other(
            "git "@ + text::joined(text::views(args@), " "@) + " failed: "@ + text::trimmed(
                stderr@,
            ),
        ),
{
    let line = text::join(args, " ");
    let mut s = text::cat3("git ", line.as_str(), " failed: ");
    s.append(text::trim(stderr).as_str());
    StackError::Other(s)
}

/// The message for a checkout in another worktree that failed.
pub fn checkout_at_failed(branch: &str, at: &str, stderr: &str) -> (r: StackError)
    ensures
        r@ == Fault::Other(
            "git checkout "@ + branch@ + " (in worktree "@ + at@ + ") failed: "@ + text::trimmed(
                stderr@,
            ),
        ),
{
    let mut s = text::cat3("git checkout ", branch, " (in worktree ");
    s.append(at);
    s.append(") failed: ");
    s.append(text::trim(stderr).as_str());
    StackError::Other(s)
}

/// The URL of `origin`: `stdout` where git succeeded, unless it is blank.
pub fn read_origin_url(stdout: Option<&str>) -> (r: Option<String>)
    ensures
        text::opt_view(r) == (match stdout {
            Some(out) => if text::trimmed(out@).len() == 0 {
                None
            } else {
                Some(text::trimmed(out@))
            },
            None => None,
        }),
{
    match stdout {
        Some(out) => {
            let url = text::trim(out);
            if url.as_str().is_empty() {
                None
            } else {
                Some(url)
            }
        },
        None => None,
    }
}

/// The checked-out branch. git fails on a detached head, which is no branch.
pub fn read_current_branch(out: Result<String, StackError>) -> (r: Option<String>)
    ensures
        text::opt_view(r) == (match out {
            Ok(s) => if text::trimmed(s@).len() == 0 {
                None
            } else {
                Some(text::trimmed(s@))
            },
            Err(_) => None,
        }),
{
    match out {
        Ok(s) => read_origin_url(Some(s.as_str())),
        Err(_) => None,
    }
}

/// Whether a branch has no commits beyond its start point and the working tree
/// is clean. `beyond` is the count of those commits as git printed it, where
/// what is no number counts as zero; `status` is what is uncommitted.
pub fn read_has_commits(beyond: &str, status: &str) -> (r: bool)
    ensures
        r == (!(text::number_of(text::trimmed(beyond@)) matches Some(n) && n > 0)
            && text::trimmed(status@).len() == 0),
{
    let none = match text::parse_number(text::trim(beyond).as_str()) {
        Some(n) => n == 0,
        None => true,
    };
    none && read_is_clean(status)
}

/// Whether a worktree holds no uncommitted change: its status is blank.
pub fn read_is_clean(stdout: &str) -> (r: bool)
    ensures
        r == (text::trimmed(stdout@).len() == 0),
{
    text::trim(stdout).as_str().is_empty()
}

/// The default branch: the one that the remote's head names; else `main` or
/// `master`, whichever exists first.
pub open spec fn trunk_of(
    head: Option<Seq<char>>,
    main: Result<bool, Fault>,
    master: Result<bool, Fault>,
) -> Result<Seq<char>, Fault> {
    match head {
        Some(out) if text::after_prefix(text::trimmed(out), "origin/"@) is Some => Ok(
            text::after_prefix(text::trimmed(out), "origin/"@)->0,
        ),
        _ => match main {
            Err(e) => Err(e),
            Ok(true) => Ok("main"@),
            Ok(false) => match master {
                Err(e) => Err(e),
                Ok(true) => Ok("master"@),
                Ok(false) => Err(
                    Fault::Other("could not determine default trunk branch; pass --base"@),
                ),
            },
        },
    }
}

/// What a fallible answer says.
pub open spec fn answer(r: Result<bool, StackError>) -> Result<bool, Fault> {
    match r {
        Ok(b) => Ok(b),
        Err(e) => Err(e@),
    }
}

/// What a fallible text says.
pub open spec fn text_answer(r: Result<String, StackError>) -> Result<Seq<char>, Fault> {
    match r {
        Ok(s) => Ok(s@),
        Err(e) => Err(e@),
    }
}

/// The default branch, from the name that the remote's head has, where git
/// knows it, and from whether `main` and `master` exist.
pub fn read_trunk_branch(
    head: Option<&str>,
    main: Result<bool, StackError>,
    master: Result<bool, StackError>,
) -> (r: Result<String, StackError>)
    ensures
        text_answer(r) == trunk_of(text::opt_str_view(head), answer(main), answer(master)),
{
    if let Some(out) = head {
        let name = text::trim(out);
        if let Some(branch) = text::strip_prefix(name.as_str(), "origin/") {
            return Ok(branch);
        }
    }
    match main {
        Err(e) => Err(e),
        Ok(true) => Ok("main".to_string()),
        Ok(false) => match master {
            Err(e) => Err(e),
            Ok(true) => Ok("master".to_string()),
            Ok(false) => Err(
                StackError::Other("could not determine default trunk branch; pass --base".to_string()),
            ),
        },
    }
}

/// What a fast-forward needs to know next.
#[derive(Debug)]
pub enum FastForward {
    /// There is nothing to move.
    Unchanged,
    /// The commits differ: ask whether `local` is an ancestor of `remote`.
    Compare { local: String, remote: String },
}

/// The remote-tracking ref of a branch.
pub open spec fn remote_ref_of(remote: Seq<char>, branch: Seq<char>) -> Seq<char> {
    "refs/remotes/"@ + remote + "/"@ + branch
}

/// The remote-tracking ref of a branch.
pub fn remote_ref(remote: &str, branch: &str) -> (r: String)
    ensures
        r@ == remote_ref_of(remote@, branch@),
{
    let mut s = text::cat3("refs/remotes/", remote, "/");
    s.append(branch);
    s
}

/// First step of a fast-forward: `local` and `remote` are what the branch and
/// its remote-tracking ref resolve to. A branch without a remote-tracking ref
/// stays where it is.
pub fn plan_fast_forward(
    local: Result<String, StackError>,
    remote: Result<String, StackError>,
) -> (r: Result<FastForward, StackError>)
    ensures
        match (local, remote) {
            (Err(e), _) => r matches Err(f) && f@ == e@,
            (Ok(_), Err(_)) => r matches Ok(FastForward::Unchanged),
            (Ok(a), Ok(b)) => if a@ == b@ {
                r matches Ok(FastForward::Unchanged)
            } else {
                r matches Ok(FastForward::Compare { local: x, remote: y }) && x@ == a@ && y@ == b@
            },
        },
{
    let a = match local {
        Ok(a) => a,
        Err(e) => {
            return Err(e);
        },
    };
    match remote {
        Err(_) => Ok(FastForward::Unchanged),
        Ok(b) => if a == b {
            Ok(FastForward::Unchanged)
        } else {
            Ok(FastForward::Compare { local: a, remote: b })
        },
    }
}

/// Second step: only a local branch that is an ancestor of the remote one may
/// move.
pub fn allow_fast_forward(
    branch: &str,
    remote: &str,
    ancestor: Result<bool, StackError>,
) -> (r: Result<(), StackError>)
    ensures
        match ancestor {
            Err(e) => r matches Err(f) && f@ == e@,
            Ok(true) => r is Ok,
            Ok(false) => r matches Err(f) && f@ == Fault::Other(
                branch@ + " has diverged from "@ + remote@ + "/"@ + branch@
                    + "; manual intervention required"@,
            ),
        },
{
    match ancestor {
        Err(e) => Err(e),
        Ok(true) => Ok(()),
        Ok(false) => {
            let mut s = text::cat3(branch, " has diverged from ", remote);
            s.append("/");
            s.append(branch);
            s.append("; manual intervention required");
            Err(StackError::Other(s))
        },
    }
}

/// How a rebase command ended: a failure with the rebase still in progress is
/// a conflict.
pub fn read_rebase_outcome(
    success: bool,
    in_progress: bool,
    what: &str,
    stderr: &str,
) -> (r: Result<(), StackError>)
    ensures
        if success {
            r is Ok
        } else if in_progress {
            r matches Err(StackError::RebaseConflict)
        } else {
            r matches Err(e) && e@ == Fault::Other(what@ + " failed: "@ + text::trimmed(stderr@))
        },
{
    if success {
        return Ok(());
    }
    if in_progress {
        return Err(StackError::RebaseConflict);
    }
    Err(StackError::Other(text::cat3(what, " failed: ", text::trim(stderr).as_str())))
}

/// The lines by which git says that it resolved a conflict as before.
pub open spec fn replay_line() -> spec_fn(Seq<char>) -> bool {
    |l: Seq<char>|
        "Resolved '"@.is_prefix_of(l) && "' using previous resolution."@.is_suffix_of(l)
}

/// How many conflicts git resolved as they were resolved before.
pub fn read_rerere_replays(output: &str) -> (r: usize)
    ensures
        r == text::lines_of(output@).filter(replay_line()).len(),
{
    let lines = text::lines(output);
    let ghost all = text::views(lines@);
    let mut count: usize = 0;
    let mut i: usize = 0;
    assert(all.take(0).filter(replay_line()).len() == 0) by {
        reveal(Seq::filter);
    }
    while i < lines.len()
        invariant
            i <= lines.len(),
            count <= i,
            all == text::views(lines@),
            count == all.take(i as int).filter(replay_line()).len(),
        decreases lines.len() - i,
    {
        proof {
            seqs::lemma_filter_step(all, i as int, replay_line());
            assert(all[i as int] == lines@[i as int]@);
        }
        let line = lines[i].as_str();
        if text::starts_with(line, "Resolved '") && text::ends_with(
            line,
            "' using previous resolution.",
        ) {
            count = count + 1;
        }
        i = i + 1;
    }
    assert(all.take(lines.len() as int) =~= all);
    count
}

/// A log entry that holds anything.
pub open spec fn nonblank() -> spec_fn(Seq<char>) -> bool {
    |e: Seq<char>| text::trimmed(e).len() > 0
}

/// The commit that a log entry stands for: after the NUL that ends the hash
/// comes the message, whose first line is the subject.
pub open spec fn commit_of(entry: Seq<char>) -> CommitView {
    let message = text::trimmed(
        match text::halves(entry, '\0') {
            Some((_, m)) => m,
            None => Seq::empty(),
        },
    );
    match text::halves(message, '\n') {
        Some((subject, body)) => CommitView {
            subject: text::trimmed(subject),
            body: text::trimmed(body),
        },
        None => CommitView { subject: text::trimmed(message), body: Seq::empty() },
    }
}

/// The commits of a log whose entries each end in a record separator.
pub open spec fn commits_of(raw: Seq<char>) -> Seq<CommitView> {
    text::pieces(raw, '\x1e').filter(nonblank()).map_values(|e: Seq<char>| commit_of(e))
}

fn read_commit(entry: &str) -> (r: CommitSummary)
    ensures
        r@ == commit_of(entry@),
{
    let message = match text::split_once(entry, '\0') {
        Some((_, m)) => text::trim(m.as_str()),
        None => text::trim(""),
    };
    proof {
        reveal_strlit("");
        assert(""@ =~= Seq::<char>::empty());
    }
    match text::split_once(message.as_str(), '\n') {
        Some((subject, body)) => CommitSummary {
            subject: text::trim(subject.as_str()),
            body: text::trim(body.as_str()),
        },
        None => CommitSummary { subject: text::trim(message.as_str()), body: String::new() },
    }
}

/// The commits that `git log --format=%H%x00%B%x1e` printed, in its order.
pub fn read_commits(raw: &str) -> (r: Vec<CommitSummary>)
    ensures
        commit_views(r@) == commits_of(raw@),
{
    let entries = text::split(raw, '\x1e');
    let ghost all = text::views(entries@);
    let ghost f = |e: Seq<char>| commit_of(e);
    let mut out: Vec<CommitSummary> = Vec::new();
    let mut i: usize = 0;
    assert(commit_views(out@) =~= all.take(0).filter(nonblank()).map_values(f)) by {
        reveal(Seq::filter);
    }
    while i < entries.len()
        invariant
            i <= entries.len(),
            all == text::views(entries@),
            f == (|e: Seq<char>| commit_of(e)),
            commit_views(out@) == all.take(i as int).filter(nonblank()).map_values(f),
        decreases entries.len() - i,
    {
        proof {
            seqs::lemma_filter_step(all, i as int, nonblank());
            assert(all[i as int] == entries@[i as int]@);
        }
        let ghost before = commit_views(out@);
        let ghost kept = all.take(i as int).filter(nonblank());
        if !text::trim(entries[i].as_str()).as_str().is_empty() {
            let commit = read_commit(entries[i].as_str());
            let ghost model = commit@;
            out.push(commit);
            assert(commit_views(out@) =~= before.push(model));
            assert(kept.push(all[i as int]).map_values(f) =~= kept.map_values(f).push(model));
        }
        i = i + 1;
    }
    assert(all.take(entries.len() as int) =~= all);
    out
}

/// How far the reading of a worktree list has come.
#[verifier::ext_equal]
pub struct Scan {
    pub found: Seq<(Seq<char>, Seq<char>)>,
    pub path: Option<Seq<char>>,
    pub branch: Option<Seq<char>>,
}

impl Scan {
    /// Close the entry being read: it counts where it has a branch.
    pub open spec fn close(self) -> Scan {
        match (self.path, self.branch) {
            (Some(p), Some(b)) => Scan { found: self.found.push((p, b)), path: None, branch: None },
            _ => Scan { found: self.found, path: None, branch: None },
        }
    }

    /// Read one line.
    pub open spec fn line(self, line: Seq<char>) -> Scan {
        match text::after_prefix(line, "worktree "@) {
            Some(path) => Scan { path: Some(path), ..self.close() },
            None => match text::after_prefix(line, "branch refs/heads/"@) {
                Some(branch) => Scan { branch: Some(branch), ..self },
                None => if line.len() == 0 {
                    self.close()
                } else {
                    self
                },
            },
        }
    }
}

/// Read lines from the start of a worktree list.
pub open spec fn scanned(lines: Seq<Seq<char>>) -> Scan
    decreases lines.len(),
{
    if lines.len() == 0 {
        Scan { found: Seq::empty(), path: None, branch: None }
    } else {
        scanned(lines.drop_last()).line(lines.last())
    }
}

/// The worktrees of a porcelain list with the branch each has checked out.
/// Those with a detached head name no branch and are left out.
pub open spec fn worktrees_of(raw: Seq<char>) -> Seq<(Seq<char>, Seq<char>)> {
    scanned(text::lines_of(raw)).close().found
}

/// The texts of a list of pairs.
pub open spec fn pair_views(list: Seq<(String, String)>) -> Seq<(Seq<char>, Seq<char>)> {
    list.map_values(|p: (String, String)| (p.0@, p.1@))
}

fn close_entry(
    found: &mut Vec<(String, String)>,
    path: Option<String>,
    branch: Option<String>,
)
    ensures
        pair_views(final(found)@) == (Scan {
            found: pair_views(old(found)@),
            path: text::opt_view(path),
            branch: text::opt_view(branch),
        }).close().found,
{
    let ghost before = pair_views(found@);
    match (path, branch) {
        (Some(p), Some(b)) => {
            found.push((p, b));
            assert(pair_views(found@) =~= before.push((p@, b@)));
        },
        _ => {},
    }
}

/// The worktrees that `git worktree list --porcelain` printed, each with its
/// checked-out branch.
pub fn read_worktrees(raw: &str) -> (r: Vec<(String, String)>)
    ensures
        pair_views(r@) == worktrees_of(raw@),
{
    let lines = text::lines(raw);
    let ghost all = text::views(lines@);
    let mut found: Vec<(String, String)> = Vec::new();
    let mut path: Option<String> = None;
    let mut branch: Option<String> = None;
    let mut i: usize = 0;
    assert(pair_views(found@) =~= Seq::<(Seq<char>, Seq<char>)>::empty());
    while i < lines.len()
        invariant
            i <= lines.len(),
            all == text::views(lines@),
            scanned(all.take(i as int)) == (Scan {
                found: pair_views(found@),
                path: text::opt_view(path),
                branch: text::opt_view(branch),
            }),
        decreases lines.len() - i,
    {
        assert(all.take(i + 1).drop_last() =~= all.take(i as int));
        assert(all[i as int] == lines@[i as int]@);
        let line = lines[i].as_str();
        if let Some(rest) = text::strip_prefix(line, "worktree ") {
            close_entry(&mut found, path, branch);
            path = Some(rest);
            branch = None;
        } else if let Some(rest) = text::strip_prefix(line, "branch refs/heads/") {
            branch = Some(rest);
        } else if line.is_empty() {
            close_entry(&mut found, path, branch);
            path = None;
            branch = None;
        }
        i = i + 1;
    }
    assert(all.take(lines.len() as int) =~= all);
    close_entry(&mut found, path, branch);
    found
}

/// The form under which a GitHub repository is known: `github.com:owner/repo`.
pub open spec fn canonical(url: Seq<char>) -> Option<Seq<char>> {
    let u = text::without_suffixes(text::trimmed(url), ".git"@);
    if "git@github.com:"@.is_prefix_of(u) {
        Some("github.com:"@ + u.skip("git@github.com:"@.len() as int))
    } else if "ssh://git@github.com/"@.is_prefix_of(u) {
        Some("github.com:"@ + u.skip("ssh://git@github.com/"@.len() as int))
    } else if "https://github.com/"@.is_prefix_of(u) {
        Some("github.com:"@ + u.skip("https://github.com/"@.len() as int))
    } else if "http://github.com/"@.is_prefix_of(u) {
        Some("github.com:"@ + u.skip("http://github.com/"@.len() as int))
    } else {
        None
    }
}

/// Convert a remote URL to the canonical `github.com:owner/repo` form; `None`
/// for a URL that is not GitHub's.
pub fn canonicalise_github_url(url: &str) -> (r: Option<String>)
    ensures
        text::opt_view(r) == canonical(url@),
{
    proof {
        reveal_strlit(".git");
    }
    let trimmed = text::trim(url);
    let u = text::trim_end_matches(trimmed.as_str(), ".git");
    if let Some(rest) = text::strip_prefix(u.as_str(), "git@github.com:") {
        return Some(text::cat("github.com:", rest.as_str()));
    }
    if let Some(rest) = text::strip_prefix(u.as_str(), "ssh://git@github.com/") {
        return Some(text::cat("github.com:", rest.as_str()));
    }
    if let Some(rest) = text::strip_prefix(u.as_str(), "https://github.com/") {
        return Some(text::cat("github.com:", rest.as_str()));
    }
    if let Some(rest) = text::strip_prefix(u.as_str(), "http://github.com/") {
        return Some(text::cat("github.com:", rest.as_str()));
    }
    None
}

/// The heads that a GitHub URL can have.
pub open spec fn github_heads() -> Seq<Seq<char>> {
    seq![
        "git@github.com:"@,
        "ssh://git@github.com/"@,
        "https://github.com/"@,
        "http://github.com/"@,
    ]
}

/// Every form of a repository's GitHub URL, with or without `.git` behind it,
/// names the same repository.
pub proof fn law_url_forms_agree(k: int, repo: Seq<char>)
    requires
        0 <= k < github_heads().len(),
        repo.len() == 0 || !text::is_space(repo.last()),
    ensures
        canonical(github_heads()[k] + repo) == Some(
            "github.com:"@ + text::without_suffixes(repo, ".git"@),
        ),
        canonical(github_heads()[k] + repo + ".git"@) == canonical(github_heads()[k] + repo),
{
    reveal_strlit(".git");
    reveal_strlit("git@github.com:");
    reveal_strlit("ssh://git@github.com/");
    reveal_strlit("https://github.com/");
    reveal_strlit("http://github.com/");
    let head = github_heads()[k];
    let tail = ".git"@;
    let url = head + repo;
    let rest = text::without_suffixes(repo, tail);
    assert(tail.len() == 4);
    assert(tail[0] == '.' && tail[1] == 'g' && tail[2] == 'i' && tail[3] == 't');
    assert(head.last() == ':' || head.last() == '/');
    assert(!tail.contains(head.last()));
    assert(!text::is_space(head[0]) && !text::is_space(head.last()));
    assert(url.last() == (if repo.len() == 0 {
        head.last()
    } else {
        repo.last()
    }));
    text::lemma_trimmed_id(url);
    text::lemma_suffixes_behind(head, repo, tail);
    let long = url + tail;
    assert(long.last() == 't');
    text::lemma_trimmed_id(long);
    text::lemma_suffix_off(url, tail);
    let u = head + rest;
    assert(head.is_prefix_of(u));
    assert(u.skip(head.len() as int) =~= rest);
    assert(u[0] == head[0]);
    if k == 3 {
        assert(u[4] == head[4]);
        assert(head[4] == ':');
    }
}

/// The default branch is the one that the remote's head names. Where git does not
/// know that, it is `main`, or `master` where there is no `main`; an error of git
/// is passed on, and where there is neither that is one.
pub proof fn law_trunk_is_the_remotes(
    branch: Seq<char>,
    head: Option<Seq<char>>,
    main: Result<bool, Fault>,
    master: Result<bool, Fault>,
)
    ensures
        branch.len() > 0 && !text::is_space(branch.last()) ==> trunk_of(
            Some("origin/"@ + branch),
            main,
            master,
        ) == Ok::<Seq<char>, Fault>(branch),
        trunk_of(None, Ok(true), master) == Ok::<Seq<char>, Fault>("main"@),
        trunk_of(None, Ok(false), Ok(true)) == Ok::<Seq<char>, Fault>("master"@),
        trunk_of(None, Ok(false), Ok(false)) is Err,
        main matches Err(f) ==> trunk_of(None, main, master) == Err::<Seq<char>, Fault>(f),
        master matches Err(f) ==> trunk_of(None, Ok(false), master) == Err::<Seq<char>, Fault>(f),
        head matches Some(h) ==> (text::after_prefix(text::trimmed(h), "origin/"@) is None
            ==> trunk_of(head, main, master) == trunk_of(None, main, master)),
{
    if branch.len() > 0 && !text::is_space(branch.last()) {
        reveal_strlit("origin/");
        let s = "origin/"@ + branch;
        assert(s.last() == branch.last());
        assert(s[0] == 'o');
        text::lemma_trimmed_id(s);
        assert(s.skip("origin/"@.len() as int) =~= branch);
        assert("origin/"@.is_prefix_of(s)) by {
            assert(s.subrange(0, "origin/"@.len() as int) =~= "origin/"@);
        }
    }
}

/// Every entry of a worktree list that names a branch is found, with its path, in
/// order: reading a path line, a branch line and a blank line adds that pair, and
/// without the branch line it adds none.
pub proof fn law_entry_is_read(lines: Seq<Seq<char>>, path: Seq<char>, branch: Seq<char>)
    requires
        scanned(lines).path is None,
        scanned(lines).branch is None,
    ensures
        ({
            let tree = "worktree "@ + path;
            let head = "branch refs/heads/"@ + branch;
            let none: Seq<char> = Seq::empty();
            &&& scanned(lines.push(tree).push(head).push(none)) == (Scan {
                found: scanned(lines).found.push((path, branch)),
                path: None,
                branch: None,
            })
            &&& scanned(lines.push(tree).push(none)) == scanned(lines)
        }),
{
    reveal_strlit("worktree ");
    reveal_strlit("branch refs/heads/");
    let tree = "worktree "@ + path;
    let head = "branch refs/heads/"@ + branch;
    let none: Seq<char> = Seq::empty();
    let one = lines.push(tree);
    let two = one.push(head);
    assert(one.drop_last() =~= lines && two.drop_last() =~= one);
    assert(two.push(none).drop_last() =~= two && one.push(none).drop_last() =~= one);
    assert("worktree "@.is_prefix_of(tree)) by {
        assert(tree.subrange(0, 9) =~= "worktree "@);
    }
    assert(tree.skip(9) =~= path);
    assert(head.subrange(0, 18) =~= "branch refs/heads/"@);
    assert("branch refs/heads/"@.is_prefix_of(head));
    assert(head.skip(18) =~= branch);
    assert(head[0] == 'b' && "worktree "@[0] == 'w');
    assert(!"worktree "@.is_prefix_of(head)) by {
        if "worktree "@.is_prefix_of(head) {
            assert(head.subrange(0, 9)[0] == head[0]);
        }
    }
    assert(scanned(one) == (Scan { path: Some(path), branch: None, ..scanned(lines) }));
    assert(scanned(two) == (Scan { path: Some(path), branch: Some(branch), ..scanned(lines) }));
}

/// Whether a text starts and ends in something other than white space.
pub open spec fn solid(s: Seq<char>) -> bool {
    s.len() > 0 && !text::is_space(s[0]) && !text::is_space(s.last())
}

/// A log entry is read as the commit that it was written for: behind the hash and
/// its NUL the subject up to the first line feed, then the body, which can be
/// missing.
pub proof fn law_commit_is_read_back(hash: Seq<char>, subject: Seq<char>, body: Seq<char>)
    requires
        !hash.contains('\0'),
        !subject.contains('\n'),
        solid(subject),
        solid(body),
    ensures
        commit_of(hash + seq!['\0'] + (subject + seq!['\n'] + body)) == (CommitView {
            subject,
            body,
        }),
        commit_of(hash + seq!['\0'] + subject) == (CommitView { subject, body: Seq::empty() }),
{
    let message = subject + seq!['\n'] + body;
    text::law_halves_of_both(hash, message, '\0');
    text::law_halves_of_both(hash, subject, '\0');
    assert(message[0] == subject[0] && message.last() == body.last());
    text::lemma_trimmed_id(message);
    text::lemma_trimmed_id(subject);
    text::lemma_trimmed_id(body);
    text::law_halves_of_both(subject, body, '\n');
    text::law_halves_join_back(subject, '\n');
    if let Some((a, b)) = text::halves(subject, '\n') {
        assert(subject[a.len() as int] == '\n');
    }
}

/// A log is read entry by entry, in order: what stands before a record separator,
/// and then what stands behind it. An entry is one commit, and white space is
/// none.
pub proof fn law_log_is_read_in_order(a: Seq<char>, b: Seq<char>)
    ensures
        commits_of(a + seq!['\x1e'] + b) == commits_of(a) + commits_of(b),
        !a.contains('\x1e') && text::trimmed(a).len() > 0 ==> commits_of(a) == seq![commit_of(a)],
        !a.contains('\x1e') && text::trimmed(a).len() == 0 ==> commits_of(a).len() == 0,
{
    let f = |e: Seq<char>| commit_of(e);
    let x = text::pieces(a, '\x1e');
    let y = text::pieces(b, '\x1e');
    text::law_pieces_of_both(a, b, '\x1e');
    seqs::lemma_filter_both(x, y, nonblank());
    assert(commits_of(a + seq!['\x1e'] + b) =~= commits_of(a) + commits_of(b));
    if !a.contains('\x1e') {
        text::law_single_piece(a, '\x1e');
        reveal(Seq::filter);
        let one = seq![a];
        assert(one.drop_last() =~= Seq::<Seq<char>>::empty());
        assert(one.drop_last().filter(nonblank()) =~= Seq::<Seq<char>>::empty());
        if text::trimmed(a).len() > 0 {
            assert(nonblank()(a));
            assert(one.filter(nonblank()) =~= one);
            assert(commits_of(a) =~= seq![commit_of(a)]);
        } else {
            assert(!nonblank()(a));
            assert(one.filter(nonblank()) =~= Seq::<Seq<char>>::empty());
        }
    }
}

/// A line counts as a replayed resolution exactly where it has the head and the tail
/// that git gives such a line, with anything in between.
pub proof fn law_replay_line_is_gits(path: Seq<char>)
    ensures
        replay_line()("Resolved '"@ + path + "' using previous resolution."@),
        !replay_line()(Seq::<char>::empty()),
{
    let a = "Resolved '"@;
    let b = "' using previous resolution."@;
    let s = a + path + b;
    assert(s.subrange(0, a.len() as int) =~= a);
    assert(s.subrange(s.len() - b.len(), s.len() as int) =~= b);
    reveal_strlit("Resolved '");
}

} // verus!
