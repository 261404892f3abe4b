//! Running a query under a row cap: reading its trailing `LIMIT`, wrapping
//! it so that no more rows than the cap come back, and the error of a query
//! that ran out of time.

use vstd::prelude::*;

use crate::text::{
    chars_of, contains, decimal, push_range, push_str, push_u64, str_contains, string_from, eq_ignore_ascii_case, eq_ignore_case_at, parse_u64_at, parse_u64_spec, range_texts,
    strip_trailing, trim, trim_bounds, word_ranges, ws_words,
};

verus! {

/// The query with surrounding whitespace and trailing `;` removed.
pub open spec fn sql_core(sql: Seq<char>) -> Seq<char> {
    trim(strip_trailing(trim(sql), ';'))
}

/// The row limit a query ends with: `... LIMIT n` or `... LIMIT n OFFSET m`
/// (keywords in any ASCII case; `n` a `u64`).
pub open spec fn trailing_limit_spec(sql: Seq<char>) -> Option<u64> {
    let w = ws_words(sql_core(sql));
    let n = w.len();
    if n >= 2 && eq_ignore_ascii_case(w[n - 2], "limit"@) {
        parse_u64_spec(w[n - 1])
    } else if n >= 4 && eq_ignore_ascii_case(w[n - 4], "limit"@) && eq_ignore_ascii_case(w[n - 2], "offset"@) {
        parse_u64_spec(w[n - 3])
    } else {
        None
    }
}

/// The trailing `LIMIT` value of a query, if it has one (see
/// [`trailing_limit_spec`]).
pub fn parse_trailing_limit(sql: &str) -> (r: Option<u64>)
    ensures
        r == trailing_limit_spec(sql@),
{
    let sv = chars_of(sql);
    let s = &sv;
    let (a, b) = trim_bounds(s, 0, s.len());
    proof {
        assert(s@.subrange(0, s@.len() as int) =~= s@);
    }
    let mut c = b;
    while c > a && s[c - 1] == ';'
        invariant
            a <= c <= b <= s.len(),
            strip_trailing(s@.subrange(a as int, b as int), ';') == strip_trailing(s@.subrange(a as int, c as int), ';'),
        decreases c - a,
    {
        assert(s@.subrange(a as int, c as int).drop_last() =~= s@.subrange(a as int, c - 1));
        c = c - 1;
    }
    let (d, e) = trim_bounds(s, a, c);
    let t = word_ranges(s, d, e);
    let ghost w = range_texts(s@, t@);
    let n = t.len();
    let limit = chars_of("limit");
    let offset = chars_of("offset");
    if n >= 2 {
        let (p0, p1) = t[n - 2];
        let (q0, q1) = t[n - 1];
        proof {
            assert(t@[n - 2].0 <= t@[n - 2].1 <= s@.len());
            assert(t@[n - 1].0 <= t@[n - 1].1 <= s@.len());
            assert(w[n - 2] == s@.subrange(p0 as int, p1 as int));
            assert(w[n - 1] == s@.subrange(q0 as int, q1 as int));
        }
        if eq_ignore_case_at(s, p0, p1, limit.as_slice()) {
            return parse_u64_at(s, q0, q1);
        }
        if n >= 4 {
            let (k0, k1) = t[n - 4];
            let (v0, v1) = t[n - 3];
            proof {
                assert(t@[n - 4].0 <= t@[n - 4].1 <= s@.len());
                assert(t@[n - 3].0 <= t@[n - 3].1 <= s@.len());
                assert(w[n - 4] == s@.subrange(k0 as int, k1 as int));
                assert(w[n - 3] == s@.subrange(v0 as int, v1 as int));
            }
            if eq_ignore_case_at(s, k0, k1, limit.as_slice()) && eq_ignore_case_at(s, p0, p1, offset.as_slice()) {
                return parse_u64_at(s, v0, v1);
            }
        }
    }
    None
}

/// How many seconds a query may run before it is interrupted.
pub const QUERY_TIMEOUT_SECS: u64 = 60;

/// How many rows are fetched under a cap: one more than the cap, so that a
/// result beyond the cap shows (at the largest count no more can be held).
pub open spec fn probe_limit(c: usize) -> int {
    if c < u64::MAX { c + 1 } else { c as int }
}

/// The statement run for a query under an optional row cap: the query
/// (trimmed, trailing `;` removed) as it is when there is no cap or when it
/// ends with a `LIMIT` no greater than the cap; else wrapped as a subquery
/// limited to one row more than the cap (see [`probe_limit`]).
pub open spec fn capped_spec(sql: Seq<char>, cap: Option<usize>) -> Seq<char> {
    let inner = strip_trailing(trim(sql), ';');
    match cap {
        None => inner,
        Some(c) => match trailing_limit_spec(inner) {
            Some(l) if l <= c => inner,
            _ => "SELECT * FROM ("@ + inner + ") AS _q LIMIT "@ + decimal(probe_limit(c)),
        },
    }
}

pub fn capped_query(sql: &str, cap: Option<usize>) -> (r: String)
    ensures
        r@ == capped_spec(sql@, cap),
{
    let sv = chars_of(sql);
    let s = &sv;
    let (a, b) = trim_bounds(s, 0, s.len());
    proof {
        assert(s@.subrange(0, s@.len() as int) =~= s@);
    }
    let mut c = b;
    while c > a && s[c - 1] == ';'
        invariant
            a <= c <= b <= s.len(),
            strip_trailing(s@.subrange(a as int, b as int), ';') == strip_trailing(s@.subrange(a as int, c as int), ';'),
        decreases c - a,
    {
        assert(s@.subrange(a as int, c as int).drop_last() =~= s@.subrange(a as int, c - 1));
        c = c - 1;
    }
    let mut inner: Vec<char> = Vec::new();
    push_range(&mut inner, s, a, c);
    let inner_s = string_from(inner.as_slice());
    match cap {
        None => inner_s,
        Some(cv) => {
            let keep = match parse_trailing_limit(inner_s.as_str()) {
                Some(l) => l <= cv as u64,
                None => false,
            };
            if keep {
                inner_s
            } else {
                let mut out: Vec<char> = Vec::new();
                push_str(&mut out, "SELECT * FROM (");
                push_str(&mut out, inner_s.as_str());
                push_str(&mut out, ") AS _q LIMIT ");
                if (cv as u64) < u64::MAX {
                    push_u64(&mut out, cv as u64 + 1);
                } else {
                    push_u64(&mut out, cv as u64);
                }
                string_from(out.as_slice())
            }
        },
    }
}

/// Whether a query exceeded its cap: more rows came back than the cap.
pub fn is_truncated(cap: Option<usize>, rows: usize) -> (b: bool)
    ensures
        b == (match cap {
            Some(n) => rows > n,
            None => false,
        }),
{
    match cap {
        Some(n) => rows > n,
        None => false,
    }
}

/// How many of the fetched rows a capped result keeps: at most the cap.
pub fn rows_kept(cap: Option<usize>, fetched: usize) -> (k: usize)
    ensures
        k == (match cap {
            Some(n) => if fetched > n { n } else { fetched },
            None => fetched,
        }),
{
    match cap {
        Some(n) => if fetched > n { n } else { fetched },
        None => fetched,
    }
}

/// The error of a failed query: an interruption is reported as the time
/// limit having been reached; any other error is passed on.
pub open spec fn query_error_spec(msg: Seq<char>, timeout_secs: u64) -> Seq<char> {
    if contains(msg, "interrupted"@) || contains(msg, "Interrupt"@) {
        "查询超时已被自动中断（当前限制为 "@ + decimal(timeout_secs as int) + " 秒）。"@
    } else {
        msg
    }
}

pub fn query_error(msg: &str, timeout_secs: u64) -> (r: String)
    ensures
        r@ == query_error_spec(msg@, timeout_secs),
{
    let m = chars_of(msg);
    if str_contains(&m, "interrupted") || str_contains(&m, "Interrupt") {
        let mut out: Vec<char> = Vec::new();
        push_str(&mut out, "查询超时已被自动中断（当前限制为 ");
        push_u64(&mut out, timeout_secs);
        push_str(&mut out, " 秒）。");
        string_from(out.as_slice())
    } else {
        string_from(m.as_slice())
    }
}

} // verus!
