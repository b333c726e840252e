//! Dates and timestamps.

use netdump::clock::{epoch_days_to_date, is_leap, push_date_time, push_delta, push_time};

fn built(push: impl Fn(&mut String)) -> String {
    let mut out = String::new();
    push(&mut out);
    out
}

#[test]
fn dates_of_days() {
    assert_eq!(epoch_days_to_date(0), (1970, 1, 1));
    assert_eq!(epoch_days_to_date(30), (1970, 1, 31));
    assert_eq!(epoch_days_to_date(31), (1970, 2, 1));
    assert_eq!(epoch_days_to_date(364), (1970, 12, 31));
    assert_eq!(epoch_days_to_date(365), (1971, 1, 1));
    assert_eq!(epoch_days_to_date(789), (1972, 2, 29));
    assert_eq!(epoch_days_to_date(11016), (2000, 2, 29));
    assert_eq!(epoch_days_to_date(19782), (2024, 2, 29));
    assert_eq!(epoch_days_to_date(47540), (2100, 2, 28));
    assert_eq!(epoch_days_to_date(47541), (2100, 3, 1));
}

#[test]
fn day_before_the_epoch_has_no_date() {
    assert_eq!(epoch_days_to_date(-1), (1970, 1, 0));
    assert_eq!(epoch_days_to_date(-2), (1970, 1, u32::MAX));
}

#[test]
fn days_and_dates_go_up_together() {
    let mut last = epoch_days_to_date(0);
    for day in 1..3000 {
        let date = epoch_days_to_date(day);
        assert!(date > last);
        last = date;
    }
}

#[test]
fn leap_years() {
    assert!(is_leap(2024) && is_leap(2000) && is_leap(-4));
    assert!(!is_leap(2023) && !is_leap(1900) && !is_leap(2100));
}

#[test]
fn time_of_day() {
    assert_eq!(built(|out| push_time(out, 86399, 5)), "23:59:59.000005");
    assert_eq!(built(|out| push_time(out, 86400 + 3661, 1234567)), "01:01:01.1234567");
}

#[test]
fn date_and_time() {
    assert_eq!(
        built(|out| push_date_time(out, 1_709_210_096, 42)),
        "2024-02-29 12:34:56.000042"
    );
    assert_eq!(
        built(|out| push_date_time(out, u64::MAX, 0)),
        "1970-01-00 23:59:59.000000"
    );
}

#[test]
fn time_differences() {
    assert_eq!(built(|out| push_delta(out, 12, 500_000, (10, 0))), "002.500000");
    assert_eq!(built(|out| push_delta(out, 10, 1, (10, 2))), "000.000001");
    assert_eq!(built(|out| push_delta(out, 10, 0, (15, 250_000))), "-05.250000");
    assert_eq!(built(|out| push_delta(out, 10, 0, (9, 900_000))), "000.100000");
    assert_eq!(built(|out| push_delta(out, 1234, 0, (0, 0))), "1234.000000");
}
