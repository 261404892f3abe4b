//! Proleptic Gregorian calendar arithmetic on day numbers counted from
//! 1970-01-01, and the decimal date and time texts built on it.

use vstd::prelude::*;

use crate::text::{padded, push_padded, push_str, string_from};

verus! {

/// Day number of the date `y-m-d` (days since 1970-01-01; Hinnant's
/// `days_from_civil`, with floor division).
pub open spec fn days_from_civil_spec(y: int, m: int, d: int) -> int {
    let yy = if m <= 2 { y - 1 } else { y };
    let era = yy / 400;
    let yoe = yy - era * 400;
    let mp = if m > 2 { m - 3 } else { m + 9 };
    let doy = (153 * mp + 2) / 5 + d - 1;
    let doe = yoe * 365 + yoe / 4 - yoe / 100 + doy;
    era * 146097 + doe - 719468
}

/// Within a 400-year era, the year of day `doe` and its day of the year.
proof fn lemma_year_of_era(doe: int)
    requires
        0 <= doe < 146097,
    ensures
        ({
            let yoe = (doe - doe / 1460 + doe / 36524 - doe / 146096) / 365;
            let doy = doe - (365 * yoe + yoe / 4 - yoe / 100);
            0 <= yoe <= 399 && 0 <= doy <= 365
        }),
{
    let yoe = (doe - doe / 1460 + doe / 36524 - doe / 146096) / 365;
    assert(0 <= yoe <= 399 && 0 <= doe - (365 * yoe + yoe / 4 - yoe / 100) <= 365) by (nonlinear_arith)
        requires 0 <= doe < 146097, yoe == (doe - doe / 1460 + doe / 36524 - doe / 146096) / 365;
}


/// Floor quotient and non-negative remainder of `n` by a positive `q`
/// (`div_euclid`, `rem_euclid`).
fn div_rem_euclid(n: i64, q: i64) -> (r: (i64, i64))
    requires
        0 < q < 0x100_0000_0000,
    ensures
        r.0 == n as int / q as int,
        r.1 == n as int % q as int,
{
    if n >= 0 {
        (n / q, n % q)
    } else {
        let a = -(n + 1);
        let d = -(a / q) - 1;
        let m = q - 1 - a % q;
        proof {
            assert(d as int == (n as int) / (q as int) && m as int == (n as int) % (q as int)) by (nonlinear_arith)
                requires a == -(n + 1), d == -(a / q) - 1, m == q - 1 - a % q, n < 0, q > 0;
        }
        (d, m)
    }
}

fn floor_div(n: i64, q: i64) -> (r: i64)
    requires
        0 < q < 0x100_0000_0000,
    ensures
        r == n as int / q as int,
{
    div_rem_euclid(n, q).0
}

/// The parts of [`days_from_civil_spec`]: the era, the year and the day of
/// the era, for a month in `1..=12` and a day in `1..=31`.
proof fn lemma_civil_parts(y: int, m: int, d: int)
    requires
        1 <= m <= 12,
        1 <= d <= 31,
    ensures
        ({
            let yy = if m <= 2 { y - 1 } else { y };
            let era = yy / 400;
            let yoe = yy - era * 400;
            let mp = if m > 2 { m - 3 } else { m + 9 };
            let doy = (153 * mp + 2) / 5 + d - 1;
            let doe = yoe * 365 + yoe / 4 - yoe / 100 + doy;
            &&& 0 <= yoe < 400
            &&& 0 <= doe < 146200
            &&& days_from_civil_spec(y, m, d) == era * 146097 + doe - 719468
        }),
{
    let yy = if m <= 2 { y - 1 } else { y };
    let era = yy / 400;
    let yoe = yy - era * 400;
    let mp = if m > 2 { m - 3 } else { m + 9 };
    let doy = (153 * mp + 2) / 5 + d - 1;
    assert(0 <= yoe < 400) by (nonlinear_arith) requires era == yy / 400, yoe == yy - era * 400;
    assert(0 <= doy <= 367) by (nonlinear_arith) requires 0 <= mp <= 11, 1 <= d <= 31, doy == (153 * mp + 2) / 5 + d - 1;
    assert(0 <= yoe * 365 + yoe / 4 - yoe / 100 + doy < 146200) by (nonlinear_arith)
        requires 0 <= yoe < 400, 0 <= doy <= 367;
}

/// Day numbers of dates within 2^48 years of the epoch fit well inside `i64`.
pub proof fn lemma_days_from_civil_bounds(y: int, m: int, d: int)
    requires
        1 <= m <= 12,
        1 <= d <= 31,
        -0x1_0000_0000_0000 <= y <= 0x1_0000_0000_0000,
    ensures
        -0x400_0000_0000_0000 <= days_from_civil_spec(y, m, d) <= 0x400_0000_0000_0000,
{
    lemma_civil_parts(y, m, d);
    let yy = if m <= 2 { y - 1 } else { y };
    let era = yy / 400;
    assert(-0x100_0000_0000 <= era <= 0x100_0000_0000) by (nonlinear_arith)
        requires era == yy / 400, -0x1_0000_0000_0001 <= yy <= 0x1_0000_0000_0000;
}

/// Day number of `y-m-d` (Hinnant's `days_from_civil`), for every date whose
/// day number, and the day number moved by the epoch offset, fit in `i64`.
pub fn days_from_civil(y: i64, m: u32, d: u32) -> (r: i64)
    requires
        1 <= m <= 12,
        1 <= d <= 31,
        i64::MIN <= days_from_civil_spec(y as int, m as int, d as int),
        days_from_civil_spec(y as int, m as int, d as int) + 719468 <= i64::MAX,
    ensures
        r == days_from_civil_spec(y as int, m as int, d as int),
{
    proof {
        lemma_civil_parts(y as int, m as int, d as int);
        let yy: int = if m <= 2 { y - 1 } else { y as int };
        let era: int = yy / 400;
        let yoe: int = yy - era * 400;
        assert(-63_200_000_000_000 <= era <= 63_200_000_000_000) by (nonlinear_arith)
            requires
                i64::MIN + 719468 - 146200 <= era * 146097 <= i64::MAX;
        assert(-25_300_000_000_000_000 <= yy <= 25_300_000_000_000_000);
    }
    let yy = if m <= 2 { y - 1 } else { y };
    let era = floor_div(yy, 400);
    let yoe = yy - era * 400;
    proof {
        assert(0 <= yoe < 400) by (nonlinear_arith) requires era == yy / 400, yoe == yy - era * 400;
    }
    let mp: i64 = if m > 2 { m as i64 - 3 } else { m as i64 + 9 };
    let doy = (153 * mp + 2) / 5 + d as i64 - 1;
    let doe = yoe * 365 + yoe / 4 - yoe / 100 + doy;
    era * 146097 + doe - 719468
}

/// The date of day number `z` (Hinnant's `civil_from_days`, with floor
/// division): split into 400-year eras, then the year of the era, the day of
/// a March-based year, and the month and day.
pub open spec fn civil_of(z: int) -> (int, int, int) {
    let zz = z + 719468;
    let era = zz / 146097;
    let doe = zz - era * 146097;
    let yoe = (doe - doe / 1460 + doe / 36524 - doe / 146096) / 365;
    let y = yoe + era * 400;
    let doy = doe - (365 * yoe + yoe / 4 - yoe / 100);
    let mp = (5 * doy + 2) / 153;
    let d = doy - (153 * mp + 2) / 5 + 1;
    let m = if mp < 10 { mp + 3 } else { mp - 9 };
    (if m <= 2 { y + 1 } else { y }, m, d)
}

/// The date of day number `z` (see [`civil_of`]): its month is in `1..=12`,
/// its day in `1..=31`, and `days_from_civil` of it gives `z` back.
pub fn civil_from_days(z: i64) -> (r: (i64, u32, u32))
    requires
        z + 719468 <= i64::MAX,
    ensures
        (r.0 as int, r.1 as int, r.2 as int) == civil_of(z as int),
        1 <= r.1 <= 12,
        1 <= r.2 <= 31,
        days_from_civil_spec(r.0 as int, r.1 as int, r.2 as int) == z,
{
    let z2 = z + 719468;
    let era = floor_div(z2, 146097);
    let doe = z2 - era * 146097;
    proof {
        assert(0 <= doe < 146097) by (nonlinear_arith) requires era == z2 / 146097, doe == z2 - era * 146097;
        assert(-63_200_000_000_000 <= era <= 63_200_000_000_000) by (nonlinear_arith)
            requires era == z2 / 146097, i64::MIN <= z2 <= i64::MAX;
        lemma_year_of_era(doe as int);
    }
    let yoe = (doe - doe / 1460 + doe / 36524 - doe / 146096) / 365;
    let y = yoe + era * 400;
    let doy = doe - (365 * yoe + yoe / 4 - yoe / 100);
    let mp = (5 * doy + 2) / 153;
    let d = doy - (153 * mp + 2) / 5 + 1;
    let m = if mp < 10 { mp + 3 } else { mp - 9 };
    proof {
        assert(0 <= mp <= 11 && 1 <= d <= 31) by (nonlinear_arith)
            requires 0 <= doy <= 365, mp == (5 * doy + 2) / 153, d == doy - (153 * mp + 2) / 5 + 1;
        let ry: int = if m <= 2 { y + 1 } else { y as int };
        let yy: int = if m <= 2 { ry - 1 } else { ry };
        assert(yy == y);
        assert(yy / 400 == era) by (nonlinear_arith) requires yy == yoe + era * 400, 0 <= yoe < 400;
        let mp2: int = if m > 2 { m - 3 } else { m + 9 };
        assert(mp2 == mp);
        assert(days_from_civil_spec(ry, m as int, d as int) == z);
    }
    (if m <= 2 { y + 1 } else { y }, m as u32, d as u32)
}


/// Law: the date of a day number has that day number (the calendar
/// conversion is a right inverse of `days_from_civil`), for every day
/// number; its month is in `1..=12` and its day in `1..=31`.
pub proof fn lemma_civil_roundtrip(z: int)
    ensures
        ({
            let (y, m, d) = civil_of(z);
            1 <= m <= 12 && 1 <= d <= 31 && days_from_civil_spec(y, m, d) == z
        }),
{
    let zz = z + 719468;
    let era = zz / 146097;
    let doe = zz - era * 146097;
    assert(0 <= doe < 146097) by (nonlinear_arith) requires era == zz / 146097, doe == zz - era * 146097;
    lemma_year_of_era(doe);
    let yoe = (doe - doe / 1460 + doe / 36524 - doe / 146096) / 365;
    let y = yoe + era * 400;
    let doy = doe - (365 * yoe + yoe / 4 - yoe / 100);
    let mp = (5 * doy + 2) / 153;
    let d = doy - (153 * mp + 2) / 5 + 1;
    let m = if mp < 10 { mp + 3 } else { mp - 9 };
    assert(0 <= mp <= 11 && 1 <= d <= 31) by (nonlinear_arith)
        requires 0 <= doy <= 365, mp == (5 * doy + 2) / 153, d == doy - (153 * mp + 2) / 5 + 1;
    let ry = if m <= 2 { y + 1 } else { y };
    let yy = if m <= 2 { ry - 1 } else { ry };
    assert(yy / 400 == era) by (nonlinear_arith) requires yy == yoe + era * 400, 0 <= yoe < 400;
}


// ---------------------------------------------------------------------------
// texts
// ---------------------------------------------------------------------------

/// `YYYY-MM-DD` of a date.
pub open spec fn date_text(ymd: (int, int, int)) -> Seq<char> {
    padded(ymd.0, 4) + "-"@ + padded(ymd.1, 2) + "-"@ + padded(ymd.2, 2)
}

fn push_date(out: &mut Vec<char>, days: i64)
    requires
        -0x1000_0000_0000_0000 <= days <= 0x1000_0000_0000_0000,
    ensures
        final(out)@ == old(out)@ + date_text(civil_of(days as int)),
{
    let (y, m, d) = civil_from_days(days);
    push_padded(out, y, 4);
    push_str(out, "-");
    push_padded(out, m as i64, 2);
    push_str(out, "-");
    push_padded(out, d as i64, 2);
}

/// `YYYY-MM-DD` of a day number (days since 1970-01-01).
pub fn format_date(days_since_epoch: i32) -> (r: String)
    ensures
        r@ == date_text(civil_of(days_since_epoch as int)),
{
    let mut out: Vec<char> = Vec::new();
    push_date(&mut out, days_since_epoch as i64);
    string_from(out.as_slice())
}

/// `HH:MM:SS` fields of a time of day in seconds.
pub open spec fn hms_text(tod: int) -> Seq<char> {
    padded(tod / 3600, 2) + ":"@ + padded((tod % 3600) / 60, 2) + ":"@ + padded(tod % 60, 2)
}

fn push_hms(out: &mut Vec<char>, tod: i64)
    requires
        0 <= tod < 86400,
    ensures
        final(out)@ == old(out)@ + hms_text(tod as int),
{
    push_padded(out, tod / 3600, 2);
    push_str(out, ":");
    push_padded(out, (tod % 3600) / 60, 2);
    push_str(out, ":");
    push_padded(out, tod % 60, 2);
}

/// `YYYY-MM-DD HH:MM:SS.ffffff` of a second count since the epoch and a
/// microsecond remainder.
pub fn civil_from_secs(secs: i64, rem_us: i64) -> (r: String)
    requires
        -0x1000_0000_0000_0000 <= secs <= 0x1000_0000_0000_0000,
    ensures
        r@ == date_text(civil_of(secs as int / 86400)) + " "@ + hms_text(secs as int % 86400) + "."@
            + padded(rem_us as int, 6),
{
    let (days, tod) = div_rem_euclid(secs, 86400);
    let mut out: Vec<char> = Vec::new();
    push_date(&mut out, days);
    push_str(&mut out, " ");
    push_hms(&mut out, tod);
    push_str(&mut out, ".");
    push_padded(&mut out, rem_us, 6);
    string_from(out.as_slice())
}

/// A timestamp in microseconds since the epoch, as
/// `YYYY-MM-DD HH:MM:SS.ffffff`.
pub fn format_ts(raw: i64) -> (r: String)
    ensures
        r@ == date_text(civil_of((raw as int / 1_000_000) / 86400)) + " "@ + hms_text(
            (raw as int / 1_000_000) % 86400,
        ) + "."@ + padded(raw as int % 1_000_000, 6),
{
    let (secs, rem_us) = div_rem_euclid(raw, 1_000_000);
    proof {
        assert(-0x1000_0000_0000_0000 <= secs <= 0x1000_0000_0000_0000) by (nonlinear_arith)
            requires secs == raw as int / 1_000_000, -0x8000_0000_0000_0000 <= raw < 0x8000_0000_0000_0000;
    }
    civil_from_secs(secs, rem_us)
}

/// A time of day in microseconds (taken modulo a day), as
/// `HH:MM:SS.ffffff`.
pub fn format_time(raw: i64) -> (r: String)
    ensures
        r@ == hms_text((raw as int % 86_400_000_000) / 1_000_000) + "."@ + padded(
            (raw as int % 86_400_000_000) % 1_000_000,
            6,
        ),
{
    let (_q, micros) = div_rem_euclid(raw, 86_400_000_000);
    let tod = micros / 1_000_000;
    let us = micros % 1_000_000;
    let mut out: Vec<char> = Vec::new();
    push_hms(&mut out, tod);
    push_str(&mut out, ".");
    push_padded(&mut out, us, 6);
    string_from(out.as_slice())
}

/// `YYYY-MM-DDTHH:MM:SSZ` (UTC) of a second count since the epoch.
pub fn timestamp_from_secs(secs: u64) -> (r: String)
    ensures
        r@ == utc_timestamp_text(secs as int),
{
    let days = (secs / 86400) as i64;
    let tod = (secs % 86400) as i64;
    let mut out: Vec<char> = Vec::new();
    push_date(&mut out, days);
    push_str(&mut out, "T");
    push_hms(&mut out, tod);
    push_str(&mut out, "Z");
    string_from(out.as_slice())
}

/// Chinese weekday names, Sunday first.
pub open spec fn weekday_name(i: int) -> Seq<char> {
    if i == 0 { "周日"@ }
    else if i == 1 { "周一"@ }
    else if i == 2 { "周二"@ }
    else if i == 3 { "周三"@ }
    else if i == 4 { "周四"@ }
    else if i == 5 { "周五"@ }
    else { "周六"@ }
}

fn weekday_of(days: i64) -> (r: &'static str)
    requires
        -0x1000_0000_0000_0000 <= days <= 0x1000_0000_0000_0000,
    ensures
        r@ == weekday_name((days as int + 4) % 7),
{
    let (_q, wd) = div_rem_euclid(days + 4, 7);
    if wd == 0 { "周日" }
    else if wd == 1 { "周一" }
    else if wd == 2 { "周二" }
    else if wd == 3 { "周三" }
    else if wd == 4 { "周四" }
    else if wd == 5 { "周五" }
    else { "周六" }
}

/// Seconds of UTC+8 (China Standard Time) ahead of UTC.
pub open spec fn cst_offset() -> int {
    28800
}

/// `YYYY-MM-DD HH:MM 星期X` in UTC+8 of a second count since the epoch.
pub open spec fn datetime_text(secs: int) -> Seq<char> {
    let local = secs + cst_offset();
    let days = local / 86400;
    let tod = local % 86400;
    date_text(civil_of(days)) + " "@ + padded(tod / 3600, 2) + ":"@ + padded((tod % 3600) / 60, 2) + " "@
        + weekday_name((days + 4) % 7)
}

/// `YYYY-MM-DD` in UTC+8 of a second count since the epoch.
pub open spec fn local_date_text(secs: int) -> Seq<char> {
    date_text(civil_of((secs + cst_offset()) / 86400))
}

/// Weekday name in UTC+8 of a second count since the epoch.
pub open spec fn local_weekday(secs: int) -> Seq<char> {
    weekday_name(((secs + cst_offset()) / 86400 + 4) % 7)
}

/// `YYYY-MM-DDTHH:MM:SSZ` (UTC) of a second count since the epoch.
pub open spec fn utc_timestamp_text(secs: int) -> Seq<char> {
    date_text(civil_of(secs / 86400)) + "T"@ + hms_text(secs % 86400) + "Z"@
}

/// `YYYY-MM-DD HH:MM 星期` in UTC+8 for a second count since the epoch.
pub fn datetime_str_at(secs: i64) -> (r: String)
    requires
        -0x1000_0000_0000_0000 <= secs <= 0x1000_0000_0000_0000,
    ensures
        r@ == datetime_text(secs as int),
{
    let local = secs + 8 * 3600;
    let (days, tod) = div_rem_euclid(local, 86400);
    let mut out: Vec<char> = Vec::new();
    push_date(&mut out, days);
    push_str(&mut out, " ");
    push_padded(&mut out, tod / 3600, 2);
    push_str(&mut out, ":");
    push_padded(&mut out, (tod % 3600) / 60, 2);
    push_str(&mut out, " ");
    push_str(&mut out, weekday_of(days));
    string_from(out.as_slice())
}

/// `YYYY-MM-DD` in UTC+8 for a second count since the epoch.
pub fn date_str_at(secs: i64) -> (r: String)
    requires
        -0x1000_0000_0000_0000 <= secs <= 0x1000_0000_0000_0000,
    ensures
        r@ == local_date_text(secs as int),
{
    let local = secs + 8 * 3600;
    let days = floor_div(local, 86400);
    let mut out: Vec<char> = Vec::new();
    push_date(&mut out, days);
    string_from(out.as_slice())
}

/// Chinese weekday name in UTC+8 for a second count since the epoch.
pub fn weekday_at(secs: i64) -> (r: &'static str)
    requires
        -0x1000_0000_0000_0000 <= secs <= 0x1000_0000_0000_0000,
    ensures
        r@ == local_weekday(secs as int),
{
    let local = secs + 8 * 3600;
    let days = floor_div(local, 86400);
    weekday_of(days)
}

// ---------------------------------------------------------------------------
// the clock
// ---------------------------------------------------------------------------

/// Seconds since the Unix epoch now (`SystemTime::now()`, zero before the
/// epoch). It depends on the time of the call, so nothing is stated of it
/// beyond its type's range.
#[verifier::external_body]
fn now_secs() -> (r: u64) {
    std::time::SystemTime::now().duration_since(std::time::UNIX_EPOCH).unwrap_or_default().as_secs()
}

/// The current time as a second count that the date texts accept.
fn now_secs_i64() -> (r: i64)
    ensures
        0 <= r <= 0x1000_0000_0000_0000,
{
    let s = now_secs();
    if s > 0x1000_0000_0000_0000 {
        0x1000_0000_0000_0000
    } else {
        s as i64
    }
}

/// Current local (UTC+8) date and time, `YYYY-MM-DD HH:MM 星期X`.
pub fn current_datetime_str() -> (r: String)
    ensures
        exists|secs: int| 0 <= secs && r@ == #[trigger] datetime_text(secs),
{
    let s = now_secs_i64();
    datetime_str_at(s)
}

/// Current local (UTC+8) date, `YYYY-MM-DD`.
pub fn current_date_str() -> (r: String)
    ensures
        exists|secs: int| 0 <= secs && r@ == #[trigger] local_date_text(secs),
{
    let s = now_secs_i64();
    date_str_at(s)
}

/// Today's Chinese weekday name (UTC+8).
pub fn weekday_cn() -> (r: &'static str)
    ensures
        exists|secs: int| 0 <= secs && r@ == #[trigger] local_weekday(secs),
{
    let s = now_secs_i64();
    weekday_at(s)
}

/// Current UTC timestamp, `YYYY-MM-DDTHH:MM:SSZ`.
pub fn current_timestamp() -> (r: String)
    ensures
        exists|secs: int| 0 <= secs && r@ == #[trigger] utc_timestamp_text(secs),
{
    let s = now_secs();
    timestamp_from_secs(s)
}

} // verus!
