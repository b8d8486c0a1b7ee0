//! Where state is kept, and under which name.

use vstd::prelude::*;

use crate::domain::error::{Fault, StackError};
use crate::domain::pool::{PoolFile, PoolFileView};
use crate::domain::stack::{StackFile, StackFileView};
use crate::git::output;
use crate::paths;
use crate::text;

verus! {

/// Root directory for all state on this machine: `overridden` where the user
/// set one, else `git-stack` in the data directory, else `.git-stack`.
pub fn home(overridden: Option<&str>, data_dir: Option<&str>) -> (r: String)
    ensures
        r@ == (match (overridden, data_dir) {
            (Some(p), _) => p@,
            (None, Some(d)) => paths::joined(d@, "git-stack"@),
            (None, None) => ".git-stack"@,
        }),
{
    match overridden {
        Some(p) => p.to_string(),
        None => match data_dir {
            Some(d) => paths::join(d, "git-stack"),
            None => ".git-stack".to_string(),
        },
    }
}

/// Identity of a repository, under which its state is filed.
#[derive(Debug, PartialEq, Eq)]
pub struct RepoIdentity {
    /// The name stored in the state files.
    pub repository: String,
    /// The same, fit to be a directory name.
    pub slug: String,
}

#[verifier::ext_equal]
pub struct IdentityView {
    pub repository: Seq<char>,
    pub slug: Seq<char>,
}

impl View for RepoIdentity {
    type V = IdentityView;

    open spec fn view(&self) -> IdentityView {
        IdentityView { repository: self.repository@, slug: self.slug@ }
    }
}

impl Clone for RepoIdentity {
    fn clone(&self) -> (r: Self)
        ensures
            r == *self,
    {
        RepoIdentity { repository: self.repository.clone(), slug: self.slug.clone() }
    }
}

/// The SHA-256 digest of some bytes.
pub uninterp spec fn sha256_of(data: Seq<u8>) -> Seq<u8>;

/// `sha2::Sha256::digest`: the digest of the bytes, 32 bytes long.
#[verifier::external_body]
fn sha256(data: &[u8]) -> (r: Vec<u8>)
    ensures
        r@ == sha256_of(data@),
        r@.len() == 32,
{
    <sha2::Sha256 as sha2::Digest>::digest(data).to_vec()
}

/// The lower-case hexadecimal digit of a number below sixteen.
pub open spec fn hex_digit(d: int) -> char {
    if d < 10 {
        (48 + d) as char
    } else {
        (87 + d) as char
    }
}

/// Two digits for each byte, high half first.
pub open spec fn hex_of(data: Seq<u8>) -> Seq<char> {
    Seq::new(
        2 * data.len(),
        |i: int|
            if i % 2 == 0 {
                hex_digit(data[i / 2] as int / 16)
            } else {
                hex_digit(data[i / 2] as int % 16)
            },
    )
}

/// `hex::encode`: two lower-case digits for each byte, high half first.
#[verifier::external_body]
fn hex_encode(data: &Vec<u8>) -> (r: String)
    ensures
        r@ == hex_of(data@),
{
    hex::encode(data)
}

/// The identity of a repository on GitHub.
pub open spec fn github_identity(canonical: Seq<char>) -> IdentityView {
    IdentityView {
        repository: canonical,
        slug: text::replaced(canonical, seq!['/', ':'], '_'),
    }
}

/// The first sixteen digits of the digest of a git directory's path.
pub open spec fn short_digest(common_dir: Seq<char>) -> Seq<char> {
    hex_of(sha256_of(vstd::utf8::encode_utf8(common_dir))).take(16)
}

/// The identity of a repository that is not on GitHub.
pub open spec fn local_identity(common_dir: Seq<char>) -> IdentityView {
    IdentityView {
        repository: "local:"@ + short_digest(common_dir),
        slug: "local_"@ + short_digest(common_dir),
    }
}

/// The identity of a repository: by the URL of `origin` where that is a GitHub
/// URL, else by the path of its common git directory.
pub open spec fn identity_of(
    origin: Option<Seq<char>>,
    common_dir: Result<Seq<char>, Fault>,
) -> Result<IdentityView, Fault> {
    match origin {
        Some(url) if output::canonical(url) is Some => Ok(
            github_identity(output::canonical(url)->0),
        ),
        _ => match common_dir {
            Ok(d) => Ok(local_identity(d)),
            Err(e) => Err(e),
        },
    }
}

/// Whether a text can be one directory name: it holds no `/`, and no `:`
/// either.
pub open spec fn one_name(s: Seq<char>) -> bool {
    forall|i: int| 0 <= i < s.len() ==> (#[trigger] s[i]) != '/' && s[i] != ':'
}

proof fn lemma_replaced_is_one_name(name: Seq<char>)
    ensures
        one_name(text::replaced(name, seq!['/', ':'], '_')),
{
    let from = seq!['/', ':'];
    let slug = text::replaced(name, from, '_');
    assert(from[0] == '/' && from[1] == ':');
    assert forall|i: int| 0 <= i < slug.len() implies (#[trigger] slug[i]) != '/' && slug[i]
        != ':' by {
        assert(name[i] == '/' ==> from.contains(name[i]));
        assert(name[i] == ':' ==> from.contains(name[i]));
    }
}

proof fn lemma_digest_is_one_name(digest: Seq<u8>)
    requires
        digest.len() == 32,
    ensures
        one_name("local_"@ + hex_of(digest).take(16)),
{
    reveal_strlit("local_");
    let slug = "local_"@ + hex_of(digest).take(16);
    assert forall|i: int| 0 <= i < slug.len() implies (#[trigger] slug[i]) != '/' && slug[i]
        != ':' by {
        if i >= 6 {
            let k = i - 6;
            assert(slug[i] == hex_of(digest)[k]);
            let b = digest[k / 2] as int;
            assert(0 <= b / 16 < 16 && 0 <= b % 16 < 16);
        }
    }
}

impl RepoIdentity {
    /// The identity of a repository with this `origin` URL, where it has one,
    /// and this common git directory. Its slug is one directory name.
    pub fn from_git(origin: Option<&str>, common_dir: Result<String, StackError>) -> (r: Result<
        Self,
        StackError,
    >)
        ensures
            match identity_of(text::opt_str_view(origin), output::text_answer(common_dir)) {
                Ok(v) => r matches Ok(id) && id@ == v && one_name(id@.slug),
                Err(f) => r matches Err(e) && e@ == f,
            },
    {
        if let Some(url) = origin {
            if let Some(canon) = output::canonicalise_github_url(url) {
                let slug = text::replace_two(canon.as_str(), '/', ':', '_');
                proof {
                    lemma_replaced_is_one_name(canon@);
                }
                return Ok(RepoIdentity { repository: canon, slug });
            }
        }
        let common = match common_dir {
            Ok(d) => d,
            Err(e) => {
                return Err(e);
            },
        };
        let digest = sha256(common.as_str().as_bytes());
        let encoded = hex_encode(&digest);
        let chars = text::chars_of(encoded.as_str());
        let short = text::text_of(&chars, 0, 16);
        proof {
            assert(short@ =~= short_digest(common@));
            lemma_digest_is_one_name(digest@);
        }
        Ok(
            RepoIdentity {
                repository: text::cat("local:", short.as_str()),
                slug: text::cat("local_", short.as_str()),
            },
        )
    }
}

/// A repository on GitHub is filed under the same entry from every checkout of
/// it, wherever that is.
pub proof fn law_checkouts_share_entry(
    url: Seq<char>,
    here: Result<Seq<char>, Fault>,
    there: Result<Seq<char>, Fault>,
)
    requires
        output::canonical(url) is Some,
    ensures
        identity_of(Some(url), here) == identity_of(Some(url), there),
        identity_of(Some(url), here) is Ok,
{
}

/// Clones of one GitHub repository are filed under the same entry, whichever
/// form their remote URLs have and wherever they are.
pub proof fn law_clones_share_entry(
    j: int,
    k: int,
    repo: Seq<char>,
    here: Result<Seq<char>, Fault>,
    there: Result<Seq<char>, Fault>,
)
    requires
        0 <= j < output::github_heads().len(),
        0 <= k < output::github_heads().len(),
        repo.len() == 0 || !text::is_space(repo.last()),
    ensures
        identity_of(Some(output::github_heads()[j] + repo), here) == identity_of(
            Some(output::github_heads()[k] + repo),
            there,
        ),
        identity_of(Some(output::github_heads()[j] + repo), here) == identity_of(
            Some(output::github_heads()[k] + repo + ".git"@),
            there,
        ),
        identity_of(Some(output::github_heads()[j] + repo), here) is Ok,
{
    output::law_url_forms_agree(j, repo);
    output::law_url_forms_agree(k, repo);
}

/// File layout of one repository's state.
#[derive(Debug)]
pub struct StorePaths {
    pub dir: String,
}

impl StorePaths {
    /// Where the state of a repository is kept below `home`.
    pub fn for_identity(home: &str, identity: &RepoIdentity) -> (r: Self)
        ensures
            r.dir@ == paths::joined(paths::joined(home@, "repos"@), identity@.slug),
    {
        let repos = paths::join(home, "repos");
        StorePaths { dir: paths::join(repos.as_str(), identity.slug.as_str()) }
    }

    pub fn stacks_json(&self) -> (r: String)
        ensures
            r@ == paths::joined(self.dir@, "stacks.json"@),
    {
        paths::join(self.dir.as_str(), "stacks.json")
    }

    pub fn pools_json(&self) -> (r: String)
        ensures
            r@ == paths::joined(self.dir@, "pools.json"@),
    {
        paths::join(self.dir.as_str(), "pools.json")
    }

    pub fn lock_file(&self) -> (r: String)
        ensures
            r@ == paths::joined(self.dir@, "stacks.json.lock"@),
    {
        paths::join(self.dir.as_str(), "stacks.json.lock")
    }

    /// The file that remembers a rebase that stopped half-way.
    pub fn rebase_state(&self) -> (r: String)
        ensures
            r@ == paths::joined(self.dir@, "stacks.json.rebase"@),
    {
        paths::join(self.dir.as_str(), "stacks.json.rebase")
    }
}

/// What to do after an attempt to take the lock.
#[derive(Debug, Clone, Copy, PartialEq, Eq, Structural)]
pub enum LockStep {
    Acquired,
    Wait { millis: u64 },
    GiveUp,
}

/// How long the lock is tried for, in milliseconds.
pub const LOCK_TIMEOUT_MILLIS: u64 = 5000;

/// What to do after an attempt to take the lock, `elapsed` milliseconds after
/// the first: try again every tenth of a second until the time is up.
pub fn lock_step(acquired: bool, elapsed: u64) -> (r: LockStep)
    ensures
        r == (if acquired {
            LockStep::Acquired
        } else if elapsed < LOCK_TIMEOUT_MILLIS {
            LockStep::Wait { millis: 100 }
        } else {
            LockStep::GiveUp
        }),
{
    if acquired {
        LockStep::Acquired
    } else if elapsed < LOCK_TIMEOUT_MILLIS {
        LockStep::Wait { millis: 100 }
    } else {
        LockStep::GiveUp
    }
}

/// The document in a state file that was read: a file that is missing or empty
/// holds none.
pub open spec fn document_of(bytes: Option<Seq<u8>>) -> Option<Seq<u8>> {
    match bytes {
        Some(b) => if b.len() == 0 {
            None
        } else {
            Some(b)
        },
        None => None,
    }
}

/// A document as it is written: a line break ends it.
pub open spec fn framed_as(document: Seq<u8>) -> Seq<u8> {
    document.push(10)
}

/// Every document that was written is found again, with the line break that
/// ends it.
pub proof fn law_written_is_found(document: Seq<u8>)
    ensures
        document_of(Some(framed_as(document))) == Some(framed_as(document)),
        framed_as(document).drop_last() == document,
{
    assert(framed_as(document).drop_last() =~= document);
}

/// The document in a state file that was read, or `None` where there is none:
/// a file that is missing or empty holds no document.
pub fn document(bytes: Option<Vec<u8>>) -> (r: Option<Vec<u8>>)
    ensures
        match document_of(
            match bytes {
                Some(b) => Some(b@),
                None => None,
            },
        ) {
            Some(_) => r == bytes,
            None => r is None,
        },
{
    match bytes {
        Some(b) => if b.len() == 0 {
            None
        } else {
            Some(b)
        },
        None => None,
    }
}

/// The bytes of a state file that holds a document: the document and a line
/// feed.
pub fn framed(document: Vec<u8>) -> (r: Vec<u8>)
    ensures
        r@ == framed_as(document@),
{
    let mut out = document;
    out.push(10);
    out
}

/// What the files on disk hold, by their paths.
pub type Disk = Map<Seq<char>, Seq<u8>>;

/// The disk once a document was written to a file.
pub open spec fn written(disk: Disk, path: Seq<char>, document: Seq<u8>) -> Disk {
    disk.insert(path, framed_as(document))
}

/// The document that a file on disk holds.
pub open spec fn held_at(disk: Disk, path: Seq<char>) -> Option<Seq<u8>> {
    document_of(
        if disk.contains_key(path) {
            Some(disk[path])
        } else {
            None
        },
    )
}

/// The stacks that are loaded from a disk, where `decode` reads a document.
pub open spec fn loaded(
    disk: Disk,
    dir: Seq<char>,
    decode: spec_fn(Seq<u8>) -> Option<StackFileView>,
    repository: Seq<char>,
) -> Option<StackFileView> {
    match held_at(disk, paths::joined(dir, "stacks.json"@)) {
        Some(bytes) => decode(bytes),
        None => Some(StackFileView::empty(repository)),
    }
}

/// Stacks that were saved are loaded again, whatever pools are saved after
/// them, in any encoding that reads back what it writes. Saving pools changes
/// nothing about what is loaded, and stacks that were never saved are none.
pub proof fn law_saved_is_loaded(
    disk: Disk,
    dir: Seq<char>,
    encode: spec_fn(StackFileView) -> Seq<u8>,
    decode: spec_fn(Seq<u8>) -> Option<StackFileView>,
    repository: Seq<char>,
    file: StackFileView,
    pools: Seq<u8>,
)
    requires
        decode(framed_as(encode(file))) == Some(file),
    ensures
        ({
            let stacks_json = paths::joined(dir, "stacks.json"@);
            let pools_json = paths::joined(dir, "pools.json"@);
            let saved = written(disk, stacks_json, encode(file));
            &&& loaded(saved, dir, decode, repository) == Some(file)
            &&& loaded(written(saved, pools_json, pools), dir, decode, repository) == Some(file)
            &&& loaded(written(disk, pools_json, pools), dir, decode, repository) == loaded(
                disk,
                dir,
                decode,
                repository,
            )
            &&& !disk.contains_key(stacks_json) ==> loaded(disk, dir, decode, repository) == Some(
                StackFileView::empty(repository),
            )
        }),
{
    reveal_strlit("stacks.json");
    reveal_strlit("pools.json");
    assert(paths::joined(dir, "stacks.json"@).len() == paths::joined(dir, "pools.json"@).len() + 1);
}

/// The stacks of a repository: what was stored, or none yet.
pub fn load(stored: Option<StackFile>, identity: &RepoIdentity) -> (r: StackFile)
    ensures
        match stored {
            Some(file) => r == file,
            None => r@ == StackFileView::empty(identity@.repository),
        },
{
    match stored {
        Some(file) => file,
        None => StackFile::empty(identity.repository.as_str()),
    }
}

/// The pools of a repository: what was stored, or none yet.
pub fn load_pools(stored: Option<PoolFile>, identity: &RepoIdentity) -> (r: PoolFile)
    ensures
        match stored {
            Some(file) => r == file,
            None => r@ == PoolFileView::empty(identity@.repository),
        },
{
    match stored {
        Some(file) => file,
        None => PoolFile::empty(identity.repository.as_str()),
    }
}

/// Where `gh stack` keeps its file for a repository.
pub fn legacy_gh_stack_candidate(common_dir: &str) -> (r: String)
    ensures
        r@ == paths::joined(common_dir@, "gh-stack"@),
{
    paths::join(common_dir, "gh-stack")
}

/// The file that `gh stack` keeps for a repository, where it exists.
pub fn legacy_gh_stack_path(common_dir: &str, present: bool) -> (r: Option<String>)
    ensures
        text::opt_view(r) == (if present {
            Some(paths::joined(common_dir@, "gh-stack"@))
        } else {
            None
        }),
{
    if present {
        Some(legacy_gh_stack_candidate(common_dir))
    } else {
        None
    }
}

/// Whether the file of `gh stack` is there, and where.
pub open spec fn legacy_on(disk: Disk, common_dir: Seq<char>) -> Option<Seq<char>> {
    let path = paths::joined(common_dir, "gh-stack"@);
    if disk.contains_key(path) {
        Some(path)
    } else {
        None
    }
}

/// Once the file of `gh stack` was renamed as taken over, there is none to take
/// over; what it held is under the other name.
pub proof fn law_migrated_is_gone(disk: Disk, common_dir: Seq<char>)
    requires
        legacy_on(disk, common_dir) is Some,
    ensures
        ({
            let from = paths::joined(common_dir, "gh-stack"@);
            let to = paths::joined(common_dir, "gh-stack.migrated"@);
            let after = disk.remove(from).insert(to, disk[from]);
            &&& legacy_on(disk, common_dir) == Some(from)
            &&& legacy_on(after, common_dir) is None
            &&& after[to] == disk[from]
        }),
{
    reveal_strlit("gh-stack");
    reveal_strlit("gh-stack.migrated");
    assert(paths::joined(common_dir, "gh-stack.migrated"@).len() == paths::joined(
        common_dir,
        "gh-stack"@,
    ).len() + 9);
}

/// A repository on GitHub goes by its name there; in the name of its directory
/// what separates its parts is written `_`, and nothing else is changed.
pub proof fn law_github_goes_by_name(url: Seq<char>, common_dir: Result<Seq<char>, Fault>)
    requires
        output::canonical(url) is Some,
    ensures
        ({
            let id = identity_of(Some(url), common_dir)->Ok_0;
            &&& identity_of(Some(url), common_dir) is Ok
            &&& id.repository == output::canonical(url)->0
            &&& id.slug.len() == id.repository.len()
            &&& forall|i: int|
                0 <= i < id.slug.len() ==> #[trigger] id.slug[i] == (if id.repository[i] == '/'
                    || id.repository[i] == ':' {
                    '_'
                } else {
                    id.repository[i]
                })
        }),
{
    let name = output::canonical(url)->0;
    let from = seq!['/', ':'];
    let slug = text::replaced(name, from, '_');
    assert(from[0] == '/' && from[1] == ':');
    assert forall|i: int| 0 <= i < slug.len() implies #[trigger] slug[i] == (if name[i] == '/'
        || name[i] == ':' {
        '_'
    } else {
        name[i]
    }) by {
        if from.contains(name[i]) {
            let k = choose|k: int| 0 <= k < from.len() && from[k] == name[i];
            assert(k == 0 || k == 1);
        }
    }
}

/// Any other repository goes by the digest of its common git directory, whatever
/// its remote is: sixteen digits behind `local:`, or behind `local_` for a
/// directory name. Without that directory there is no identity.
pub proof fn law_others_go_by_directory(
    origin: Option<Seq<char>>,
    common_dir: Result<Seq<char>, Fault>,
)
    requires
        origin matches Some(url) ==> output::canonical(url) is None,
    ensures
        match common_dir {
            Ok(d) => identity_of(origin, common_dir) matches Ok(id) && {
                let digits = hex_of(sha256_of(vstd::utf8::encode_utf8(d))).take(16);
                &&& id.repository == "local:"@ + digits
                &&& id.slug == "local_"@ + digits
            },
            Err(f) => identity_of(origin, common_dir) == Err::<IdentityView, Fault>(f),
        },
{
}

/// The lock is tried for five seconds.
pub proof fn law_lock_is_tried_for_seconds()
    ensures
        LOCK_TIMEOUT_MILLIS == 5 * 1000,
{
}

} // verus!
