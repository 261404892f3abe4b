use daw::dates::{
    civil_from_days, civil_from_secs, days_from_civil, format_date, format_time, format_ts,
    timestamp_from_secs, datetime_str_at, current_timestamp,
};

#[test]
fn civil_dates_of_day_numbers() {
    assert_eq!(civil_from_days(0), (1970, 1, 1));
    assert_eq!(civil_from_days(11017), (2000, 3, 1));
    assert_eq!(civil_from_days(-1), (1969, 12, 31));
    assert_eq!(civil_from_days(20_683), (2026, 8, 18));
}

#[test]
fn day_numbers_round_trip() {
    for z in [-800_000i64, -1, 0, 59, 60, 11016, 20_000, 2_932_896] {
        let (y, m, d) = civil_from_days(z);
        assert_eq!(days_from_civil(y, m, d), z);
    }
}

#[test]
fn formatted_dates_and_times() {
    assert_eq!(format_date(0), "1970-01-01");
    assert_eq!(format_date(-719_528), "0000-01-01");
    assert_eq!(civil_from_secs(86_399, 5), "1970-01-01 23:59:59.000005");
    assert_eq!(format_ts(-1), "1969-12-31 23:59:59.999999");
    assert_eq!(format_time(3_723_000_001), "01:02:03.000001");
    assert_eq!(format_time(-1), "23:59:59.999999");
}

#[test]
fn utc_timestamp_text() {
    assert_eq!(timestamp_from_secs(0), "1970-01-01T00:00:00Z");
    assert_eq!(timestamp_from_secs(1_786_924_800), "2026-08-17T00:00:00Z");
    assert_eq!(current_timestamp().len(), 20);
}

#[test]
fn local_datetime_text() {
    assert_eq!(datetime_str_at(0), "1970-01-01 08:00 周四");
    assert_eq!(datetime_str_at(16 * 3600), "1970-01-02 00:00 周五");
}

#[test]
fn calendar_at_the_ends_of_i64() {
    for z in [i64::MAX - 719468, i64::MIN, i64::MIN + 1, 0, -1, 1_000_000_000_000_000_000] {
        let (y, m, d) = civil_from_days(z);
        assert!((1..=12).contains(&m) && (1..=31).contains(&d));
        assert_eq!(days_from_civil(y, m, d), z);
    }
    assert_eq!(civil_from_days(0), (1970, 1, 1));
    assert_eq!(days_from_civil(2000, 3, 1), 11017);
}
