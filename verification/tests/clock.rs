//! Ages in words.

use git_stack::clock::{
    age, age_at, current_instant, humanise_age, now_rfc3339, timestamp_at,
};

#[test]
fn humanises_relative_to_overridden_now() {
    let now = Some("2026-05-12T12:00:00Z");

    assert_eq!(humanise_age("2026-05-12T11:59:30Z", now), "30s ago");
    assert_eq!(humanise_age("2026-05-12T11:55:00Z", now), "5m ago");
    assert_eq!(humanise_age("2026-05-12T09:00:00Z", now), "3h ago");
    assert_eq!(humanise_age("2026-05-10T12:00:00Z", now), "2d ago");
    // Unparseable input falls back to the raw string.
    assert_eq!(humanise_age("not-a-date", now), "not-a-date");
}

#[test]
fn instants_are_read_from_timestamps() {
    assert_eq!(current_instant(Some("1970-01-01T00:00:00Z")), 0);
    assert_eq!(current_instant(Some("1970-01-01T00:00:01.5Z")), 1_500_000_000);
    assert_eq!(current_instant(Some("1970-01-01T01:00:00+01:00")), 0);
    assert_eq!(age_at("1970-01-01T00:00:00Z", 61_000_000_000), "1m ago");
}

#[test]
fn ages_step_at_the_minute_the_hour_and_the_day() {
    let second: i128 = 1_000_000_000;
    assert_eq!(age(0, 59 * second), "59s ago");
    assert_eq!(age(0, 60 * second), "1m ago");
    assert_eq!(age(0, 3599 * second), "59m ago");
    assert_eq!(age(0, 3600 * second), "1h ago");
    assert_eq!(age(0, 86399 * second), "23h ago");
    assert_eq!(age(0, 86400 * second), "1d ago");
    // What lies ahead is taken as now.
    assert_eq!(age(5 * second, 0), "0s ago");
}

#[test]
fn the_present_is_a_timestamp() {
    assert_eq!(now_rfc3339(Some("pinned")), "pinned");
    let now = now_rfc3339(None);
    let read = current_instant(Some(&now));
    assert!((read - current_instant(None)).abs() < 60 * 1_000_000_000, "{now}");
}

#[test]
fn instants_are_written_as_timestamps() {
    assert_eq!(timestamp_at(0), "1970-01-01T00:00:00Z");
    assert_eq!(timestamp_at(1_500_000_000), "1970-01-01T00:00:01.5Z");
    assert_eq!(timestamp_at(1_778_587_200_000_000_000), "2026-05-12T12:00:00Z");
    // There is no such year.
    assert_eq!(timestamp_at(i128::MAX), "");
}
