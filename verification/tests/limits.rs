use spin_tracker_op::solver::{now, secs_to_ts};
use spin_tracker_op::parser::{ts_fits, utc_to_paris};
use spin_tracker_op::stats::breakdown::civil;
use spin_tracker_op::stats::weekday;

#[test]
fn weekday_at_the_top_of_i64() {
    // i64::MAX is a multiple of 7, so day i64::MAX - 3 is a Monday.
    assert_eq!(weekday(i64::MAX - 3), 0);
    assert_eq!(weekday(0), 3);
}

#[test]
fn civil_on_far_days() {
    assert_eq!(civil(-1), (1969, 12, 31));
    let (y, m, d) = civil(i64::MIN);
    assert!(y < 0 && (1..=12).contains(&m) && (1..=31).contains(&d));
    let (y, m, d) = civil(i64::MAX - 719468);
    assert!(y > 0 && (1..=12).contains(&m) && (1..=31).contains(&d));
}

#[test]
fn paris_time_on_far_timestamps() {
    assert!(ts_fits(0));
    assert!(!ts_fits(i64::MAX));
    let t = 1i64 << 60;
    assert!(ts_fits(t));
    let off = utc_to_paris(t) - t;
    assert!(off == 3600 || off == 7200);
    // 2024-07-01 12:00 UTC is summer time, 2024-01-01 12:00 UTC winter time.
    assert_eq!(utc_to_paris(1719835200), 1719835200 + 7200);
    assert_eq!(utc_to_paris(1704110400), 1704110400 + 3600);
}

#[test]
fn clock_seconds_as_timestamps() {
    assert_eq!(secs_to_ts(Some(5)), 5);
    assert_eq!(secs_to_ts(None), 0);
    assert_eq!(secs_to_ts(Some(u64::MAX)), -1);
    assert!(now() > 1_700_000_000);
}
