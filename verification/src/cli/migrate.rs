//! `stack migrate`: take over the file that `gh stack` kept.

use vstd::prelude::*;

use crate::domain::error::{Fault, StackError};
use crate::domain::stack::{StackFile, StackFileView};
use crate::paths;
use crate::store::RepoIdentity;
use crate::text;

verus! {

/// The error where there is no file to take over.
pub fn no_legacy_file(cwd: &str) -> (r: StackError)
    ensures
        r@ == Fault::Other("no .git/gh-stack file found in "@ + cwd@),
{
    StackError::Other(text::cat("no .git/gh-stack file found in ", cwd))
}

/// The error where the file cannot be read as what it should be.
pub fn unreadable(path: &str, detail: &str) -> (r: StackError)
    ensures
        r@ == Fault::Other("failed to parse "@ + path@ + ": "@ + detail@),
{
    let mut s = text::cat3("failed to parse ", path, ": ");
    s.append(detail);
    StackError::Other(s)
}

/// Take over what was read from the file, under the canonical name of the
/// repository. What the store holds already is only replaced where forced.
pub fn take_over(
    parsed: StackFile,
    existing: &StackFile,
    identity: &RepoIdentity,
    force: bool,
) -> (r: Result<StackFile, StackError>)
    ensures
        if existing@.stacks.len() > 0 && !force {
            r matches Err(e) && e@ == Fault::Other(
                "central store already has "@ + text::decimal(existing@.stacks.len())
                    + " stack(s) for `"@ + identity@.repository
                    + "`; pass --force to overwrite"@,
            )
        } else {
            r matches Ok(file) && file@ == (StackFileView {
                repository: identity@.repository,
                ..parsed@
            })
        },
{
    assert(existing@.stacks.len() == existing.stacks@.len());
    if existing.stacks.len() > 0 && !force {
        let mut s = text::cat3(
            "central store already has ",
            text::to_decimal(existing.stacks.len() as u64).as_str(),
            " stack(s) for `",
        );
        s.append(identity.repository.as_str());
        s.append("`; pass --force to overwrite");
        return Err(StackError::Other(s));
    }
    let mut file = parsed;
    file.repository = identity.repository.clone();
    Ok(file)
}

/// Where the file goes once it was taken over.
pub fn migrated_path(common_dir: &str) -> (r: String)
    ensures
        r@ == paths::joined(common_dir@, "gh-stack.migrated"@),
{
    paths::join(common_dir, "gh-stack.migrated")
}

/// What is told of the migration.
pub fn report(file: &StackFile, stacks_json: &str, renamed: &str) -> (r: Vec<String>)
    ensures
        text::views(r@) == seq![
            "✓ migrated "@ + text::decimal(file@.stacks.len()) + " stack(s) for "@
                + file@.repository + " → "@ + stacks_json@,
            "ℹ legacy file renamed to "@ + renamed@,
        ],
{
    assert(file@.stacks.len() == file.stacks@.len());
    let mut line = text::cat3(
        "✓ migrated ",
        text::to_decimal(file.stacks.len() as u64).as_str(),
        " stack(s) for ",
    );
    line.append(file.repository.as_str());
    line.append(" → ");
    line.append(stacks_json);
    let ghost first = line@;
    let mut out: Vec<String> = Vec::new();
    out.push(line);
    out.push(text::cat("ℹ legacy file renamed to ", renamed));
    assert(text::views(out@) =~= seq![first, "ℹ legacy file renamed to "@ + renamed@]);
    out
}

} // verus!
