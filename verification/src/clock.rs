//! Timestamps and ages. Instants are nanoseconds since the Unix epoch.

use vstd::prelude::*;

use crate::text;

verus! {

/// The instants that a timestamp can name.
pub open spec fn in_range(instant: i128) -> bool {
    -9_223_372_036_854_775_808_000_000_000 <= instant <= 9_223_372_036_854_775_807_999_999_999
}

/// The instant that an RFC 3339 timestamp names; `None` where the text is no
/// such timestamp.
pub uninterp spec fn rfc3339_instant(timestamp: Seq<char>) -> Option<i128>;

/// `time::OffsetDateTime::parse` with the RFC 3339 format, and
/// `unix_timestamp_nanos` of what it returns. The instant is a 64-bit count of
/// seconds and a count of nanoseconds below a second.
#[verifier::external_body]
fn parse_rfc3339(timestamp: &str) -> (r: Option<i128>)
    ensures
        r == rfc3339_instant(timestamp@),
        r matches Some(n) ==> in_range(n),
{
    match time::OffsetDateTime::parse(
        timestamp,
        &time::format_description::well_known::Rfc3339,
    ) {
        Ok(t) => Some(t.unix_timestamp_nanos()),
        Err(_) => None,
    }
}

/// `time::OffsetDateTime::now_utc` and `unix_timestamp_nanos` of it: the
/// system clock. Nothing is said of its value but the range.
#[verifier::external_body]
fn system_instant() -> (r: i128)
    ensures
        in_range(r),
{
    time::OffsetDateTime::now_utc().unix_timestamp_nanos()
}

/// The RFC 3339 timestamp that names an instant in UTC; `None` where there is
/// none.
pub uninterp spec fn rfc3339_text(instant: i128) -> Option<Seq<char>>;

/// `time::OffsetDateTime::from_unix_timestamp_nanos`, and what it returns
/// formatted by `format` as RFC 3339. It is `None` where either fails.
#[verifier::external_body]
fn format_rfc3339(instant: i128) -> (r: Option<String>)
    ensures
        text::opt_view(r) == rfc3339_text(instant),
{
    match time::OffsetDateTime::from_unix_timestamp_nanos(instant) {
        Ok(t) => match t.format(&time::format_description::well_known::Rfc3339) {
            Ok(s) => Some(s),
            Err(_) => None,
        },
        Err(_) => None,
    }
}

/// The timestamp of an instant: empty where there is none.
pub open spec fn timestamp_of(now: i128) -> Seq<char> {
    match rfc3339_text(now) {
        Some(s) => s,
        None => Seq::empty(),
    }
}

/// The timestamp of an instant: empty where there is none.
pub fn timestamp_at(now: i128) -> (r: String)
    ensures
        r@ == timestamp_of(now),
{
    match format_rfc3339(now) {
        Some(s) => s,
        None => String::new(),
    }
}

/// Now, as an RFC 3339 timestamp: `fixed` where the caller pins it, else the
/// time that the system clock gives, whatever it is.
pub fn now_rfc3339(fixed: Option<&str>) -> (r: String)
    ensures
        fixed matches Some(s) ==> r@ == s@,
        fixed is None ==> exists|now: i128| in_range(now) && r@ == #[trigger] timestamp_of(now),
{
    match fixed {
        Some(s) => s.to_string(),
        None => timestamp_at(system_instant()),
    }
}

/// The current instant: that of `fixed` where the caller pins it to a
/// timestamp, else the system clock's.
pub fn current_instant(fixed: Option<&str>) -> (r: i128)
    ensures
        in_range(r),
        fixed matches Some(s) ==> (rfc3339_instant(s@) is Some ==> Some(r) == rfc3339_instant(
            s@,
        )),
{
    match fixed {
        Some(s) => match parse_rfc3339(s) {
            Some(n) => n,
            None => system_instant(),
        },
        None => system_instant(),
    }
}

/// How long ago something was: seconds below a minute, minutes below an hour,
/// hours below a day, then days. What lies in the future is zero seconds ago.
pub open spec fn age_text(seconds: nat) -> Seq<char> {
    if seconds < 60 {
        text::decimal(seconds) + "s ago"@
    } else if seconds < 3600 {
        text::decimal(seconds / 60) + "m ago"@
    } else if seconds < 86400 {
        text::decimal(seconds / 3600) + "h ago"@
    } else {
        text::decimal(seconds / 86400) + "d ago"@
    }
}

/// Whole seconds from one instant to another, none where it goes backwards.
pub open spec fn seconds_between(from: int, to: int) -> nat {
    if to <= from {
        0
    } else {
        ((to - from) / 1_000_000_000) as nat
    }
}

/// The age of `then` at `now`, in words.
pub fn age(then: i128, now: i128) -> (r: String)
    requires
        in_range(then),
        in_range(now),
    ensures
        r@ == age_text(seconds_between(then as int, now as int)),
{
    let seconds: u64 = if now <= then {
        0
    } else {
        ((now - then) / 1_000_000_000) as u64
    };
    if seconds < 60 {
        return text::cat(text::to_decimal(seconds).as_str(), "s ago");
    }
    let minutes: u64 = seconds / 60;
    if minutes < 60 {
        return text::cat(text::to_decimal(minutes).as_str(), "m ago");
    }
    let hours: u64 = minutes / 60;
    if hours < 24 {
        return text::cat(text::to_decimal(hours).as_str(), "h ago");
    }
    let days: u64 = hours / 24;
    text::cat(text::to_decimal(days).as_str(), "d ago")
}

/// A timestamp as an age at `now`; a text that is no timestamp as it is.
pub open spec fn age_of(timestamp: Seq<char>, now: i128) -> Seq<char> {
    match rfc3339_instant(timestamp) {
        Some(then) => age_text(seconds_between(then as int, now as int)),
        None => timestamp,
    }
}

/// A timestamp as an age at `now`; a text that is no timestamp as it is.
pub fn age_at(timestamp: &str, now: i128) -> (r: String)
    requires
        in_range(now),
    ensures
        r@ == age_of(timestamp@, now),
{
    match parse_rfc3339(timestamp) {
        Some(then) => age(then, now),
        None => timestamp.to_string(),
    }
}

/// An RFC 3339 timestamp as a relative age, such as `12s ago`, `3m ago`,
/// `2h ago`, `5d ago`. A text that is no timestamp is returned as it is.
/// `fixed` pins what counts as now; without it the system clock decides.
pub fn humanise_age(timestamp: &str, fixed: Option<&str>) -> (r: String)
    ensures
        rfc3339_instant(timestamp@) is None ==> r@ == timestamp@,
        fixed matches Some(s) ==> (rfc3339_instant(s@) matches Some(now) ==> r@ == age_of(
            timestamp@,
            now,
        )),
        exists|now: i128| in_range(now) && r@ == #[trigger] age_of(timestamp@, now),
{
    let now: i128 = current_instant(fixed);
    age_at(timestamp, now)
}

/// An age is told in the largest unit that it fills at least once, rounded down:
/// seconds below a minute, minutes below an hour, hours below a day, days.
pub proof fn law_age_is_rounded_down(seconds: nat, n: nat)
    ensures
        seconds < 60 ==> age_text(seconds) == text::decimal(seconds) + "s ago"@,
        1 <= n < 60 && 60 * n <= seconds < 60 * (n + 1) ==> age_text(seconds) == text::decimal(n)
            + "m ago"@,
        1 <= n < 24 && 3600 * n <= seconds < 3600 * (n + 1) ==> age_text(seconds)
            == text::decimal(n) + "h ago"@,
        1 <= n && 86400 * n <= seconds < 86400 * (n + 1) ==> age_text(seconds) == text::decimal(n)
            + "d ago"@,
{
}

/// The seconds between two instants are whole ones, rounded down, and none where
/// the second is not later.
pub proof fn law_seconds_are_whole(from: int, to: int)
    ensures
        to <= from ==> seconds_between(from, to) == 0,
        to > from ==> 1_000_000_000 * seconds_between(from, to) <= to - from < 1_000_000_000 * (
        seconds_between(from, to) + 1),
{
}

/// What is no timestamp is told as it is, and one that names this instant is no
/// second old.
pub proof fn law_age_of_now(timestamp: Seq<char>, now: i128)
    ensures
        rfc3339_instant(timestamp) is None ==> age_of(timestamp, now) == timestamp,
        rfc3339_instant(timestamp) == Some(now) ==> age_of(timestamp, now) == text::decimal(0)
            + "s ago"@,
{
}

} // verus!
