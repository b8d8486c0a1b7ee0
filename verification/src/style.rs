//! Terminal styling. Whether a stream shows colour is for the caller to say;
//! every function takes the answer as `on`.

use vstd::prelude::*;

pub mod glyph;

verus! {

/// `text` under the given SGR parameters, or as it is where colour is off.
pub open spec fn styled(text: Seq<char>, params: Seq<char>, on: bool) -> Seq<char> {
    if on {
        "\x1b["@ + params + "m"@ + text + "\x1b[0m"@
    } else {
        text
    }
}

pub open spec fn accent_of(s: Seq<char>, on: bool) -> Seq<char> {
    styled(s, "1;38;5;81"@, on)
}

pub open spec fn ok_of(s: Seq<char>, on: bool) -> Seq<char> {
    styled(s, "38;5;108"@, on)
}

pub open spec fn warn_of(s: Seq<char>, on: bool) -> Seq<char> {
    styled(s, "38;5;215"@, on)
}

pub open spec fn merged_of(s: Seq<char>, on: bool) -> Seq<char> {
    styled(s, "38;5;246"@, on)
}

pub open spec fn dim_of(s: Seq<char>, on: bool) -> Seq<char> {
    styled(s, "38;5;244"@, on)
}

pub open spec fn secondary_of(s: Seq<char>, on: bool) -> Seq<char> {
    styled(s, "38;5;250"@, on)
}

pub open spec fn url_of(s: Seq<char>, on: bool) -> Seq<char> {
    styled(s, "4;38;5;250"@, on)
}

pub open spec fn bold_of(s: Seq<char>, on: bool) -> Seq<char> {
    styled(s, "1"@, on)
}

/// Wrap `text` in the given ANSI SGR sequence, or return it unchanged where
/// colour is off for standard output.
pub fn sgr(text: &str, params: &str, on: bool) -> (r: String)
    ensures
        r@ == styled(text@, params@, on),
{
    sgr_on(text, params, on)
}

/// The same for the error stream.
pub fn sgr_stderr(text: &str, params: &str, on: bool) -> (r: String)
    ensures
        r@ == styled(text@, params@, on),
{
    sgr_on(text, params, on)
}

fn sgr_on(text: &str, params: &str, on: bool) -> (r: String)
    ensures
        r@ == styled(text@, params@, on),
{
    if !on {
        return text.to_string();
    }
    let mut s = "\x1b[".to_string();
    s.append(params);
    s.append("m");
    s.append(text);
    s.append("\x1b[0m");
    s
}

/// Bold cyan: the one thing to look at.
pub fn accent(s: &str, on: bool) -> (r: String)
    ensures
        r@ == accent_of(s@, on),
{
    sgr(s, "1;38;5;81", on)
}

/// Sage: a successful state.
pub fn ok(s: &str, on: bool) -> (r: String)
    ensures
        r@ == ok_of(s@, on),
{
    sgr(s, "38;5;108", on)
}

/// Amber: something that needs action.
pub fn warn(s: &str, on: bool) -> (r: String)
    ensures
        r@ == warn_of(s@, on),
{
    sgr(s, "38;5;215", on)
}

/// Soft grey: rows of the merged section.
pub fn merged(s: &str, on: bool) -> (r: String)
    ensures
        r@ == merged_of(s@, on),
{
    sgr(s, "38;5;246", on)
}

/// Chrome grey: separators, labels, decoration.
pub fn dim(s: &str, on: bool) -> (r: String)
    ensures
        r@ == dim_of(s@, on),
{
    sgr(s, "38;5;244", on)
}

/// Legible grey: secondary data such as paths, refs and counts.
pub fn secondary(s: &str, on: bool) -> (r: String)
    ensures
        r@ == secondary_of(s@, on),
{
    sgr(s, "38;5;250", on)
}

/// Underlined secondary.
pub fn url(s: &str, on: bool) -> (r: String)
    ensures
        r@ == url_of(s@, on),
{
    sgr(s, "4;38;5;250", on)
}

pub fn bold(s: &str, on: bool) -> (r: String)
    ensures
        r@ == bold_of(s@, on),
{
    sgr(s, "1", on)
}

/// The URL style for text bound for the error stream.
pub fn url_err(s: &str, on: bool) -> (r: String)
    ensures
        r@ == url_of(s@, on),
{
    sgr_stderr(s, "4;38;5;250", on)
}

/// Whether a stream shows colour: it is a terminal and nobody opted out.
pub fn use_color(no_color: bool, git_stack_no_color: bool, terminal: bool) -> (r: bool)
    ensures
        r == (!no_color && !git_stack_no_color && terminal),
{
    !(no_color || git_stack_no_color) && terminal
}

/// Text passes through unchanged where colour is off.
pub proof fn law_no_colour_no_escapes(text: Seq<char>, params: Seq<char>)
    ensures
        styled(text, params, false) == text,
{
}

/// Styling leaves the text in: it only puts something around it.
pub proof fn law_styled_holds_text(s: Seq<char>, params: Seq<char>, on: bool)
    ensures
        crate::text::has_part(styled(s, params, on), s),
{
    crate::text::lemma_part_whole(s);
    if on {
        crate::text::lemma_part_within("\x1b["@ + params + "m"@, s, "\x1b[0m"@, s);
    }
}

} // verus!
