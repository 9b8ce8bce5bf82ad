use midi_transform::calendar::{days_to_date, utc_from_unix_seconds, UtcTime};

#[test]
fn epoch_is_first_of_january_1970() {
    assert_eq!(days_to_date(0), (1970, 1, 1));
}

#[test]
fn known_dates() {
    assert_eq!(days_to_date(1095), (1972, 12, 31));
    assert_eq!(days_to_date(11016), (2000, 2, 29));
    assert_eq!(days_to_date(11017), (2000, 3, 1));
    assert_eq!(days_to_date(19723), (2024, 1, 1));
    assert_eq!(days_to_date(47541), (2100, 3, 1));
    assert_eq!(days_to_date(47540), (2100, 2, 28));
}

#[test]
fn largest_accepted_day_count() {
    let (y, m, d) = days_to_date(u64::MAX - 719468);
    assert!(y > 50_000_000_000_000_000 / 1000);
    assert!((1..=12).contains(&m));
    assert!((1..=31).contains(&d));
}

#[test]
fn unix_seconds_to_utc() {
    assert_eq!(
        utc_from_unix_seconds(1725029869),
        UtcTime { year: 2024, month: 8, day: 30, hour: 14, minute: 57, second: 49 }
    );
    assert_eq!(
        utc_from_unix_seconds(0),
        UtcTime { year: 1970, month: 1, day: 1, hour: 0, minute: 0, second: 0 }
    );
    assert_eq!(
        utc_from_unix_seconds(86399),
        UtcTime { year: 1970, month: 1, day: 1, hour: 23, minute: 59, second: 59 }
    );
}

#[test]
fn year_boundaries_follow_year_lengths() {
    assert_eq!(days_to_date(364), (1970, 12, 31));
    assert_eq!(days_to_date(365), (1971, 1, 1));
    assert_eq!(days_to_date(730), (1972, 1, 1));
    // 1972 is a leap year: 366 days later comes 1973-01-01.
    assert_eq!(days_to_date(730 + 366), (1973, 1, 1));
    // 1999 is not a leap year: February 28 is followed by March 1.
    assert_eq!(days_to_date(10651), (1999, 3, 1));
    assert_eq!(days_to_date(10650), (1999, 2, 28));
}

#[test]
fn consecutive_day_counts_give_consecutive_dates() {
    let mut prev = days_to_date(0);
    for n in 1..3000u64 {
        let cur = days_to_date(n * 7);
        assert!(cur > prev);
        prev = cur;
    }
}
