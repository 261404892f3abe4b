//! Date arithmetic of a leave request (strict `YYYY-MM-DD` dates and the
//! inclusive number of calendar days between two of them) and the texts
//! that ask the user to confirm one.

use vstd::prelude::*;

use crate::dates::{days_from_civil, days_from_civil_spec};
use crate::text::{chars_of, decimal, push_i64, push_str, string_from};

verus! {

pub open spec fn is_digit(c: char) -> bool {
    '0' <= c && c <= '9'
}

pub open spec fn digit_val(c: char) -> int {
    c as int - 48
}

/// Year, month and day of a strict `YYYY-MM-DD` text (four, two and two
/// ASCII digits), with the month in `1..=12` and the day in `1..=31`.
pub open spec fn iso_date_fields(s: Seq<char>) -> Option<(int, int, int)> {
    if s.len() == 10 && s[4] == '-' && s[7] == '-' && is_digit(s[0]) && is_digit(s[1]) && is_digit(s[2])
        && is_digit(s[3]) && is_digit(s[5]) && is_digit(s[6]) && is_digit(s[8]) && is_digit(s[9]) {
        let y = digit_val(s[0]) * 1000 + digit_val(s[1]) * 100 + digit_val(s[2]) * 10 + digit_val(s[3]);
        let m = digit_val(s[5]) * 10 + digit_val(s[6]);
        let d = digit_val(s[8]) * 10 + digit_val(s[9]);
        if 1 <= m <= 12 && 1 <= d <= 31 {
            Some((y, m, d))
        } else {
            None
        }
    } else {
        None
    }
}

/// Day number of a strict `YYYY-MM-DD` text.
pub open spec fn parse_date_spec(s: Seq<char>) -> Option<int> {
    match iso_date_fields(s) {
        Some(f) => Some(days_from_civil_spec(f.0, f.1, f.2)),
        None => None,
    }
}

fn digit(c: char) -> (r: Option<i64>)
    ensures
        match r {
            Some(v) => is_digit(c) && v == digit_val(c),
            None => !is_digit(c),
        },
{
    if '0' <= c && c <= '9' {
        Some((c as u32 - 48) as i64)
    } else {
        None
    }
}

/// Parses a strict `YYYY-MM-DD` date into its day number, `None` when the
/// text is not one (see [`iso_date_fields`]).
pub fn parse_date(s: &str) -> (r: Option<i64>)
    ensures
        match parse_date_spec(s@) {
            Some(v) => r == Some(v as i64),
            None => r is None,
        },
{
    let v = chars_of(s);
    if v.len() != 10 || v[4] != '-' || v[7] != '-' {
        return None;
    }
    let y0 = match digit(v[0]) { Some(x) => x, None => return None };
    let y1 = match digit(v[1]) { Some(x) => x, None => return None };
    let y2 = match digit(v[2]) { Some(x) => x, None => return None };
    let y3 = match digit(v[3]) { Some(x) => x, None => return None };
    let m0 = match digit(v[5]) { Some(x) => x, None => return None };
    let m1 = match digit(v[6]) { Some(x) => x, None => return None };
    let d0 = match digit(v[8]) { Some(x) => x, None => return None };
    let d1 = match digit(v[9]) { Some(x) => x, None => return None };
    let y = y0 * 1000 + y1 * 100 + y2 * 10 + y3;
    let m = m0 * 10 + m1;
    let d = d0 * 10 + d1;
    if !(1 <= m && m <= 12 && 1 <= d && d <= 31) {
        return None;
    }
    proof {
        crate::dates::lemma_days_from_civil_bounds(y as int, m as int, d as int);
    }
    Some(days_from_civil(y, m as u32, d as u32))
}

/// What [`compute_days`] answers for two date texts.
pub open spec fn compute_days_spec(start: Seq<char>, end: Seq<char>) -> Result<int, Seq<char>> {
    match parse_date_spec(start) {
        None => Err("开始日期格式不正确（应为 YYYY-MM-DD）："@ + start),
        Some(s) => match parse_date_spec(end) {
            None => Err("结束日期格式不正确（应为 YYYY-MM-DD）："@ + end),
            Some(e) => if e < s {
                Err("结束日期 "@ + end + " 早于开始日期 "@ + start)
            } else {
                Ok(e - s + 1)
            },
        },
    }
}

/// Calendar days of a leave from `start` to `end`, both included.
pub fn compute_days(start: &str, end: &str) -> (r: Result<i64, String>)
    ensures
        match compute_days_spec(start@, end@) {
            Ok(n) => r == Ok::<i64, String>(n as i64),
            Err(e) => r matches Err(x) && x@ == e,
        },
{
    let s = match parse_date(start) {
        Some(x) => x,
        None => {
            let mut m: Vec<char> = Vec::new();
            push_str(&mut m, "开始日期格式不正确（应为 YYYY-MM-DD）：");
            push_str(&mut m, start);
            return Err(string_from(m.as_slice()));
        },
    };
    let e = match parse_date(end) {
        Some(x) => x,
        None => {
            let mut m: Vec<char> = Vec::new();
            push_str(&mut m, "结束日期格式不正确（应为 YYYY-MM-DD）：");
            push_str(&mut m, end);
            return Err(string_from(m.as_slice()));
        },
    };
    if e < s {
        let mut m: Vec<char> = Vec::new();
        push_str(&mut m, "结束日期 ");
        push_str(&mut m, end);
        push_str(&mut m, " 早于开始日期 ");
        push_str(&mut m, start);
        return Err(string_from(m.as_slice()));
    }
    proof {
        let fs = iso_date_fields(start@).unwrap();
        let fe = iso_date_fields(end@).unwrap();
        assert(0 <= fs.0 <= 9999 && 0 <= fe.0 <= 9999);
        assert(-800000 <= s <= 3000000) by (nonlinear_arith)
            requires s == days_from_civil_spec(fs.0, fs.1, fs.2), 0 <= fs.0 <= 9999, 1 <= fs.1 <= 12, 1 <= fs.2 <= 31;
        assert(-800000 <= e <= 3000000) by (nonlinear_arith)
            requires e == days_from_civil_spec(fe.0, fe.1, fe.2), 0 <= fe.0 <= 9999, 1 <= fe.1 <= 12, 1 <= fe.2 <= 31;
    }
    Ok(e - s + 1)
}

/// The one-line summary shown while a leave request awaits confirmation.
pub open spec fn pending_summary(name: Seq<char>, dept: Seq<char>, start: Seq<char>, end: Seq<char>, days: int) -> Seq<char> {
    "提交 "@ + name + "（"@ + dept + "）的请假申请："@ + start + " → "@ + end + " 共 "@ + decimal(days) + " 天"@
}

/// The detail the user confirms: who, which dates, why, and the balance
/// that the request takes.
pub open spec fn confirmation_detail(name: Seq<char>, dept: Seq<char>, start: Seq<char>, end: Seq<char>, days: int, reason: Seq<char>) -> Seq<char> {
    "将提交「"@ + name + "（"@ + dept + "部门）」的请假单：\n- 日期："@ + start + " 至 "@ + end + "（含，共 "@
        + decimal(days) + " 天）\n- 事由："@ + reason + "\n提交后将扣减 "@ + decimal(days) + " 天年假余额，并生成一条待审批记录。"@
}

/// The summary and the detail of the confirmation asked before a leave
/// request of `days` days is submitted.
pub fn leave_confirmation(name: &str, dept: &str, start: &str, end: &str, days: i64, reason: &str) -> (r: (String, String))
    ensures
        r.0@ == pending_summary(name@, dept@, start@, end@, days as int),
        r.1@ == confirmation_detail(name@, dept@, start@, end@, days as int, reason@),
{
    let mut a: Vec<char> = Vec::new();
    push_str(&mut a, "提交 ");
    push_str(&mut a, name);
    push_str(&mut a, "（");
    push_str(&mut a, dept);
    push_str(&mut a, "）的请假申请：");
    push_str(&mut a, start);
    push_str(&mut a, " → ");
    push_str(&mut a, end);
    push_str(&mut a, " 共 ");
    push_i64(&mut a, days);
    push_str(&mut a, " 天");
    let mut b: Vec<char> = Vec::new();
    push_str(&mut b, "将提交「");
    push_str(&mut b, name);
    push_str(&mut b, "（");
    push_str(&mut b, dept);
    push_str(&mut b, "部门）」的请假单：\n- 日期：");
    push_str(&mut b, start);
    push_str(&mut b, " 至 ");
    push_str(&mut b, end);
    push_str(&mut b, "（含，共 ");
    push_i64(&mut b, days);
    push_str(&mut b, " 天）\n- 事由：");
    push_str(&mut b, reason);
    push_str(&mut b, "\n提交后将扣减 ");
    push_i64(&mut b, days);
    push_str(&mut b, " 天年假余额，并生成一条待审批记录。");
    proof {
        assert(a@ =~= pending_summary(name@, dept@, start@, end@, days as int));
        assert(b@ =~= confirmation_detail(name@, dept@, start@, end@, days as int, reason@));
    }
    (string_from(a.as_slice()), string_from(b.as_slice()))
}

} // verus!
