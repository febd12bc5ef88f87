use noice::moment::{is_after, Moment};
use noice::wallet_sync::{needs_update, walkback_cutoff};
use noice::dashboard::window_start;

fn m(secs: i64, nanos: u32) -> Moment {
    Moment { secs, nanos }
}

#[test]
fn later_compares_seconds_then_fraction() {
    assert!(is_after(&m(10, 0), &m(9, 999_999_999)));
    assert!(is_after(&m(10, 2), &m(10, 1)));
    assert!(!is_after(&m(10, 1), &m(10, 1)));
    assert!(!is_after(&m(-5, 0), &m(3, 0)));
}

#[test]
fn validity_follows_the_calendar_range() {
    assert!(m(0, 0).is_valid());
    assert!(m(noice::moment::MAX_TIMESTAMP, 999_999_999).is_valid());
    assert!(!m(noice::moment::MAX_TIMESTAMP + 1, 0).is_valid());
    assert!(!m(0, 1_000_000_000).is_valid());
    assert!(chrono::DateTime::from_timestamp(noice::moment::MAX_TIMESTAMP, 0).is_some());
    assert!(chrono::DateTime::from_timestamp(noice::moment::MAX_TIMESTAMP + 1, 0).is_none());
    assert!(chrono::DateTime::from_timestamp(noice::moment::MIN_TIMESTAMP, 0).is_some());
    assert!(chrono::DateTime::from_timestamp(noice::moment::MIN_TIMESTAMP - 1, 0).is_none());
}

#[test]
fn update_waits_an_hour_in_whole_seconds() {
    assert!(needs_update(&m(3600, 0), &m(0, 0)));
    assert!(!needs_update(&m(3600, 0), &m(0, 1)));
    assert!(needs_update(&m(3601, 0), &m(0, 1)));
    assert!(!needs_update(&m(0, 0), &m(7200, 0)));
}

#[test]
fn first_fetch_reaches_thirty_days_back() {
    let now = m(1_600_000_000, 42);
    assert_eq!(walkback_cutoff(None, &now), m(1_600_000_000 - 30 * 86_400, 42));
    assert_eq!(walkback_cutoff(Some(m(5, 6)), &now), m(5, 6));
}

#[test]
fn window_starts_at_midnight_days_back() {
    // 2020-09-13T12:26:40Z is day 18518.
    let now = m(1_600_000_000, 5);
    assert_eq!(window_start(&now, 0), m(18_518 * 86_400, 0));
    assert_eq!(window_start(&now, 7), m((18_518 - 7) * 86_400, 0));
    // Before 1970 the day rounds down.
    assert_eq!(window_start(&m(-1, 0), 0), m(-86_400, 0));
}
