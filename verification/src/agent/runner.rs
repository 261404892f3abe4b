//! Error classification of the streaming runner, and the rewriting of chart
//! markers before a message is replayed into the model's history.

use vstd::prelude::*;

use crate::text::{
    chars_of, contains, find, occurs_at, range_is, find_in, lowercase_chars, push_range, push_str, str_contains,
    string_from, trim, trim_bounds, unicode_lower,
};

verus! {

// ---------------------------------------------------------------------------
// keyword tests
// ---------------------------------------------------------------------------

/// The views of a list of string literals.
pub open spec fn str_views(keys: Seq<&str>) -> Seq<Seq<char>> {
    Seq::new(keys.len(), |i: int| keys[i]@)
}

/// `m` contains one of `keys`.
pub open spec fn contains_any(m: Seq<char>, keys: Seq<Seq<char>>) -> bool {
    exists|i: int| 0 <= i < keys.len() && contains(m, #[trigger] keys[i])
}

fn has_any(m: &Vec<char>, keys: &[&str]) -> (b: bool)
    ensures
        b == contains_any(m@, str_views(keys@)),
{
    let mut k: usize = 0;
    while k < keys.len()
        invariant
            k <= keys.len(),
            forall|i: int| 0 <= i < k ==> !contains(m@, #[trigger] str_views(keys@)[i]),
        decreases keys.len() - k,
    {
        if str_contains(m, keys[k]) {
            proof {
                assert(str_views(keys@)[k as int] == keys@[k as int]@);
            }
            return true;
        }
        k = k + 1;
    }
    false
}

/// Wordings of an exhausted quota, balance or credit.
pub open spec fn unretriable_keys() -> Seq<Seq<char>> {
    seq![
        "insufficient_quota"@, "insufficient quota"@, "insufficient balance"@,
        "quota exhausted"@, "quota_exhausted"@, "exceeded your current quota"@,
        "credit_balance"@, "credit balance"@, "balance is too low"@, "balance too low"@,
        "billing"@, "payment"@, "no credit"@, "out of credit"@,
        "额度已用尽"@, "额度不足"@, "余额不足"@, "余额已尽"@, "余额耗尽"@,
        "充值"@, "欠费"@, "计费"@,
    ]
}

/// Wordings of throttling without a 429 status.
pub open spec fn throttle_keys() -> Seq<Seq<char>> {
    seq![
        "too many requests"@, "rate_limit"@, "ratelimit"@, "overloaded"@, "throttl"@,
        "tpm"@, "rpm"@,
    ]
}

/// Markers of a dropped stream or a failing gateway.
pub open spec fn transient_keys() -> Seq<Seq<char>> {
    seq![
        "peer closed connection"@, "incomplete chunked read"@, "connection reset"@,
        "broken pipe"@, "connection closed before message completed"@, "incompletemessage"@,
        "internalerror"@, "internal server error"@, "bad gateway"@, "service unavailable"@,
        "gateway timeout"@, "error decoding response body"@,
    ]
}

/// Server-error statuses.
pub open spec fn status_5xx_keys() -> Seq<Seq<char>> {
    seq!["status code 500"@, "status code 502"@, "status code 503"@, "status code 504"@]
}

// ---------------------------------------------------------------------------
// rate limits
// ---------------------------------------------------------------------------

/// Whether a provider error is worth retrying after a back-off.
#[derive(Debug, PartialEq, Eq, Structural, Clone, Copy)]
pub enum RateLimitKind {
    Retriable,
    Unretriable,
    No,
}

/// What [`classify_rate_limit_error`] answers for an error message: an
/// exhausted quota (checked first) is not retried; a 429 status or a
/// throttling wording is; anything else is no rate limit. Matching is on
/// the lowercased message.
pub open spec fn rate_limit_spec(msg: Seq<char>) -> RateLimitKind {
    let m = unicode_lower(msg);
    if contains_any(m, unretriable_keys()) {
        RateLimitKind::Unretriable
    } else if contains(m, "status code 429"@) {
        RateLimitKind::Retriable
    } else if contains_any(m, throttle_keys()) {
        RateLimitKind::Retriable
    } else {
        RateLimitKind::No
    }
}

/// Classifies a provider error string (see [`rate_limit_spec`]).
pub fn classify_rate_limit_error(msg: &str) -> (r: RateLimitKind)
    ensures
        r == rate_limit_spec(msg@),
{
    let mv = chars_of(msg);
    let m = lowercase_chars(mv.as_slice());
    let unretriable = [
        "insufficient_quota", "insufficient quota", "insufficient balance",
        "quota exhausted", "quota_exhausted", "exceeded your current quota",
        "credit_balance", "credit balance", "balance is too low", "balance too low",
        "billing", "payment", "no credit", "out of credit",
        "额度已用尽", "额度不足", "余额不足", "余额已尽", "余额耗尽",
        "充值", "欠费", "计费",
    ];
    assert(str_views(unretriable@) =~= unretriable_keys());
    if has_any(&m, &unretriable) {
        return RateLimitKind::Unretriable;
    }
    if str_contains(&m, "status code 429") {
        return RateLimitKind::Retriable;
    }
    let throttle = ["too many requests", "rate_limit", "ratelimit", "overloaded", "throttl", "tpm", "rpm"];
    assert(str_views(throttle@) =~= throttle_keys());
    if has_any(&m, &throttle) {
        return RateLimitKind::Retriable;
    }
    RateLimitKind::No
}

// ---------------------------------------------------------------------------
// transient failures
// ---------------------------------------------------------------------------

/// Whether a stream error is a transient network or gateway failure: one of
/// the markers, or a 500/502/503/504 status, in the lowercased message.
pub open spec fn transient_spec(msg: Seq<char>) -> bool {
    let m = unicode_lower(msg);
    contains_any(m, transient_keys()) || contains_any(m, status_5xx_keys())
}

/// Detects transient stream/network failures worth retrying.
pub fn is_transient_stream_error(msg: &str) -> (b: bool)
    ensures
        b == transient_spec(msg@),
{
    let mv = chars_of(msg);
    let m = lowercase_chars(mv.as_slice());
    let markers = [
        "peer closed connection", "incomplete chunked read", "connection reset",
        "broken pipe", "connection closed before message completed", "incompletemessage",
        "internalerror", "internal server error", "bad gateway", "service unavailable",
        "gateway timeout", "error decoding response body",
    ];
    assert(str_views(markers@) =~= transient_keys());
    if has_any(&m, &markers) {
        return true;
    }
    let statuses = ["status code 500", "status code 502", "status code 503", "status code 504"];
    assert(str_views(statuses@) =~= status_5xx_keys());
    has_any(&m, &statuses)
}

/// Law of rate-limit classification: a quota, balance or billing wording
/// means the error is not retried; without one, a 429 status or a
/// throttling wording means it is retried after a back-off; and a message
/// with none of them is no rate limit. Wordings are looked for in the
/// lowercased message.
pub proof fn lemma_rate_limit_classes(msg: Seq<char>)
    ensures
        forall|w: Seq<char>|
            seq![
                "insufficient_quota"@, "insufficient quota"@, "insufficient balance"@,
                "quota exhausted"@, "quota_exhausted"@, "exceeded your current quota"@,
                "credit_balance"@, "credit balance"@, "balance is too low"@, "balance too low"@,
                "billing"@, "payment"@, "no credit"@, "out of credit"@,
                "额度已用尽"@, "额度不足"@, "余额不足"@, "余额已尽"@, "余额耗尽"@,
                "充值"@, "欠费"@, "计费"@,
            ].contains(w) && #[trigger] contains(unicode_lower(msg), w) ==> rate_limit_spec(msg) == RateLimitKind::Unretriable,
        !contains_any(unicode_lower(msg), unretriable_keys()) && contains(unicode_lower(msg), "status code 429"@)
            ==> rate_limit_spec(msg) == RateLimitKind::Retriable,
        forall|w: Seq<char>|
            seq![
                "too many requests"@, "rate_limit"@, "ratelimit"@, "overloaded"@, "throttl"@, "tpm"@, "rpm"@,
            ].contains(w) && !contains_any(unicode_lower(msg), unretriable_keys()) && #[trigger] contains(unicode_lower(msg), w) ==> rate_limit_spec(msg) == RateLimitKind::Retriable,
        rate_limit_spec(msg) == RateLimitKind::Retriable ==> !contains_any(unicode_lower(msg), unretriable_keys()),
        rate_limit_spec(msg) == RateLimitKind::No ==> !contains(unicode_lower(msg), "status code 429"@)
            && !contains_any(unicode_lower(msg), unretriable_keys()) && !contains_any(unicode_lower(msg), throttle_keys()),
{
    let m = unicode_lower(msg);
    let q = seq![
        "insufficient_quota"@, "insufficient quota"@, "insufficient balance"@,
        "quota exhausted"@, "quota_exhausted"@, "exceeded your current quota"@,
        "credit_balance"@, "credit balance"@, "balance is too low"@, "balance too low"@,
        "billing"@, "payment"@, "no credit"@, "out of credit"@,
        "额度已用尽"@, "额度不足"@, "余额不足"@, "余额已尽"@, "余额耗尽"@,
        "充值"@, "欠费"@, "计费"@,
    ];
    assert(q =~= unretriable_keys());
    let t = seq!["too many requests"@, "rate_limit"@, "ratelimit"@, "overloaded"@, "throttl"@, "tpm"@, "rpm"@];
    assert(t =~= throttle_keys());
    assert forall|w: Seq<char>| q.contains(w) && #[trigger] contains(m, w) implies contains_any(m, unretriable_keys()) by {
        let i = choose|i: int| 0 <= i < q.len() && q[i] == w;
        assert(contains(m, unretriable_keys()[i]));
    }
    assert forall|w: Seq<char>| t.contains(w) && #[trigger] contains(m, w) implies contains_any(m, throttle_keys()) by {
        let i = choose|i: int| 0 <= i < t.len() && t[i] == w;
        assert(contains(m, throttle_keys()[i]));
    }
}

/// Law of transient errors: a message whose lowercased text holds a
/// 500, 502, 503 or 504 status, or one of the dropped-connection and
/// gateway wordings, is a transient stream error; one holding none of them
/// is not.
pub proof fn lemma_transient_statuses(msg: Seq<char>)
    ensures
        forall|w: Seq<char>|
            seq![
                "status code 500"@, "status code 502"@, "status code 503"@, "status code 504"@,
            ].contains(w) && #[trigger] contains(unicode_lower(msg), w) ==> transient_spec(msg),
        forall|w: Seq<char>|
            seq![
                "peer closed connection"@, "incomplete chunked read"@, "connection reset"@,
                "broken pipe"@, "connection closed before message completed"@, "incompletemessage"@,
                "internalerror"@, "internal server error"@, "bad gateway"@, "service unavailable"@,
                "gateway timeout"@, "error decoding response body"@,
            ].contains(w) && #[trigger] contains(unicode_lower(msg), w) ==> transient_spec(msg),
        transient_spec(msg) ==> contains_any(unicode_lower(msg), transient_keys()) || contains(unicode_lower(msg), "status code 500"@)
            || contains(unicode_lower(msg), "status code 502"@) || contains(unicode_lower(msg), "status code 503"@)
            || contains(unicode_lower(msg), "status code 504"@),
{
    let m = unicode_lower(msg);
    let st = seq!["status code 500"@, "status code 502"@, "status code 503"@, "status code 504"@];
    assert(st =~= status_5xx_keys());
    let tk = seq![
        "peer closed connection"@, "incomplete chunked read"@, "connection reset"@,
        "broken pipe"@, "connection closed before message completed"@, "incompletemessage"@,
        "internalerror"@, "internal server error"@, "bad gateway"@, "service unavailable"@,
        "gateway timeout"@, "error decoding response body"@,
    ];
    assert(tk =~= transient_keys());
    assert forall|w: Seq<char>| st.contains(w) && #[trigger] contains(m, w) implies contains_any(m, status_5xx_keys()) by {
        let i = choose|i: int| 0 <= i < st.len() && st[i] == w;
        assert(contains(m, status_5xx_keys()[i]));
    }
    assert forall|w: Seq<char>| tk.contains(w) && #[trigger] contains(m, w) implies contains_any(m, transient_keys()) by {
        let i = choose|i: int| 0 <= i < tk.len() && tk[i] == w;
        assert(contains(m, transient_keys()[i]));
    }
    if contains_any(m, status_5xx_keys()) {
        let i = choose|i: int| 0 <= i < status_5xx_keys().len() && contains(m, #[trigger] status_5xx_keys()[i]);
        assert(i == 0 || i == 1 || i == 2 || i == 3);
    }
}

// ---------------------------------------------------------------------------
// diagnosis
// ---------------------------------------------------------------------------

pub open spec fn cut_stream_keys() -> Seq<Seq<char>> {
    seq![
        "peer closed connection"@, "incomplete chunked read"@, "error decoding response body"@,
        "connection closed before message completed"@, "incompletemessage"@,
    ]
}

pub open spec fn reset_keys() -> Seq<Seq<char>> {
    seq!["connection reset"@, "broken pipe"@]
}

pub open spec fn server_error_keys() -> Seq<Seq<char>> {
    seq![
        "internalerror"@, "internal server error"@, "bad gateway"@, "service unavailable"@,
        "gateway timeout"@, "status code 50"@,
    ]
}

pub open spec fn timeout_keys() -> Seq<Seq<char>> {
    seq!["timed out"@, "timeout"@, "timedout"@]
}

pub open spec fn diag_cut_stream() -> Seq<char> {
    "服务端在流式传输中途断开了连接（响应体不完整）。常见原因：网络波动、代理/VPN 掐断长连接、模型服务或网关过载超时"@
}

pub open spec fn diag_reset() -> Seq<char> {
    "TCP 连接被重置。常见原因：网络切换、防火墙/代理干预、服务端过载"@
}

pub open spec fn diag_server() -> Seq<char> {
    "模型服务端/网关内部错误（5xx 类），多为服务端瞬时故障"@
}

pub open spec fn diag_timeout() -> Seq<char> {
    "请求超时。可能网络延迟过大，或服务端排队过长"@
}

/// The diagnosis [`diagnose_stream_error`] gives, checked in this order on
/// the lowercased message: a cut stream, a reset connection, a server or
/// gateway error, a timeout; none otherwise.
pub open spec fn diagnosis_spec(msg: Seq<char>) -> Option<Seq<char>> {
    let m = unicode_lower(msg);
    if contains_any(m, cut_stream_keys()) {
        Some(diag_cut_stream())
    } else if contains_any(m, reset_keys()) {
        Some(diag_reset())
    } else if contains_any(m, server_error_keys()) {
        Some(diag_server())
    } else if contains_any(m, timeout_keys()) {
        Some(diag_timeout())
    } else {
        None
    }
}

/// Translates a recognised stream-error root cause into a user-facing
/// explanation; `None` when the error cannot be attributed.
pub fn diagnose_stream_error(msg: &str) -> (r: Option<&'static str>)
    ensures
        match diagnosis_spec(msg@) {
            Some(d) => r matches Some(x) && x@ == d,
            None => r is None,
        },
{
    let mv = chars_of(msg);
    let m = lowercase_chars(mv.as_slice());
    let cut = [
        "peer closed connection", "incomplete chunked read", "error decoding response body",
        "connection closed before message completed", "incompletemessage",
    ];
    assert(str_views(cut@) =~= cut_stream_keys());
    if has_any(&m, &cut) {
        return Some("服务端在流式传输中途断开了连接（响应体不完整）。常见原因：网络波动、代理/VPN 掐断长连接、模型服务或网关过载超时");
    }
    let reset = ["connection reset", "broken pipe"];
    assert(str_views(reset@) =~= reset_keys());
    if has_any(&m, &reset) {
        return Some("TCP 连接被重置。常见原因：网络切换、防火墙/代理干预、服务端过载");
    }
    let server = [
        "internalerror", "internal server error", "bad gateway", "service unavailable",
        "gateway timeout", "status code 50",
    ];
    assert(str_views(server@) =~= server_error_keys());
    if has_any(&m, &server) {
        return Some("模型服务端/网关内部错误（5xx 类），多为服务端瞬时故障");
    }
    let timeout = ["timed out", "timeout", "timedout"];
    assert(str_views(timeout@) =~= timeout_keys());
    if has_any(&m, &timeout) {
        return Some("请求超时。可能网络延迟过大，或服务端排队过长");
    }
    None
}

/// Markers of a provider rejecting a tool call it does not know (matched
/// case-sensitively).
pub open spec fn unknown_tool_keys() -> Seq<Seq<char>> {
    seq!["UnknownToolCall"@, "unknown or disallowed tool"@, "未知工具"@, "不存在的工具"@]
}

/// Detects a provider-side rejection of an unknown tool call.
pub fn is_unknown_tool_call_error(msg: &str) -> (b: bool)
    ensures
        b == contains_any(msg@, unknown_tool_keys()),
{
    let m = chars_of(msg);
    let keys = ["UnknownToolCall", "unknown or disallowed tool", "未知工具", "不存在的工具"];
    assert(str_views(keys@) =~= unknown_tool_keys());
    has_any(&m, &keys)
}


// ---------------------------------------------------------------------------
// chart markers
// ---------------------------------------------------------------------------

proof fn lemma_min_occurrence(s: Seq<char>, p: Seq<char>, k: int)
    requires
        occurs_at(s, p, k),
    ensures
        exists|i: int| occurs_at(s, p, i) && forall|j: int| 0 <= j < i ==> !occurs_at(s, p, j),
    decreases k,
{
    if exists|j: int| 0 <= j < k && occurs_at(s, p, j) {
        let j = choose|j: int| 0 <= j < k && occurs_at(s, p, j);
        lemma_min_occurrence(s, p, j);
    } else {
        assert(occurs_at(s, p, k) && forall|j: int| 0 <= j < k ==> !occurs_at(s, p, j));
    }
}

pub proof fn lemma_find_bounds(s: Seq<char>, p: Seq<char>)
    ensures
        find(s, p) matches Some(i) ==> 0 <= i && i + p.len() <= s.len(),
{
    reveal(find);
    if contains(s, p) {
        let k = choose|k: int| occurs_at(s, p, k);
        lemma_min_occurrence(s, p, k);
        let i = choose|i: int| occurs_at(s, p, i) && forall|j: int| 0 <= j < i ==> !occurs_at(s, p, j);
        assert(occurs_at(s, p, i));
    }
}

/// The title recorded for a chart id (the last entry for that id).
pub open spec fn chart_title(titles: Seq<(Seq<char>, Option<Seq<char>>)>, id: Seq<char>) -> Option<Seq<char>>
    decreases titles.len(),
{
    if titles.len() == 0 {
        None
    } else if titles.last().0 == id {
        titles.last().1
    } else {
        chart_title(titles.drop_last(), id)
    }
}

pub open spec fn title_views(v: Seq<(String, Option<String>)>) -> Seq<(Seq<char>, Option<Seq<char>>)> {
    Seq::new(v.len(), |i: int| (v[i].0@, match v[i].1 { Some(t) => Some(t@), None => None }))
}

/// What [`rewrite_chart_markers`] makes of a text: each closed
/// `{{chart:<id>}}` becomes `[图表:<title>]` (or `[图表]` without a known
/// title, the id trimmed); an unclosed marker and all after it stay as they
/// are.
pub open spec fn rewrite_spec(text: Seq<char>, titles: Seq<(Seq<char>, Option<Seq<char>>)>) -> Seq<char>
    decreases text.len(),
{
    proof {
        lemma_find_bounds(text, "{{chart:"@);
        reveal_strlit("{{chart:");
        reveal_strlit("}}");
    }
    match find(text, "{{chart:"@) {
        None => text,
        Some(start) => {
            let after = text.skip(start + 8);
            proof {
                lemma_find_bounds(after, "}}"@);
            }
            match find(after, "}}"@) {
                None => text,
                Some(end) => {
                    let token = trim(after.take(end));
                    text.take(start) + "[图表"@ + (match chart_title(titles, token) {
                        Some(t) => seq![':'] + t,
                        None => Seq::empty(),
                    }) + seq![']'] + rewrite_spec(after.skip(end + 2), titles)
                },
            }
        },
    }
}

fn title_for(titles: &[(String, Option<String>)], s: &Vec<char>, lo: usize, hi: usize) -> (r: Option<String>)
    requires
        lo <= hi <= s.len(),
    ensures
        match chart_title(title_views(titles@), s@.subrange(lo as int, hi as int)) {
            Some(t) => r matches Some(x) && x@ == t,
            None => r is None,
        },
{
    let mut k = titles.len();
    proof {
        assert(title_views(titles@).take(k as int) =~= title_views(titles@));
    }
    while k > 0
        invariant
            lo <= hi <= s.len(),
            k <= titles.len(),
            chart_title(title_views(titles@), s@.subrange(lo as int, hi as int)) == chart_title(
                title_views(titles@).take(k as int),
                s@.subrange(lo as int, hi as int),
            ),
        decreases k,
    {
        let (id, t) = &titles[k - 1];
        proof {
            assert(title_views(titles@).take(k as int).drop_last() =~= title_views(titles@).take(k - 1));
            assert(title_views(titles@).take(k as int).last() == title_views(titles@)[k - 1]);
        }
        if range_is(s, lo, hi, id.as_str()) {
            return match t {
                Some(x) => Some(x.clone()),
                None => None,
            };
        }
        k = k - 1;
    }
    proof {
        assert(title_views(titles@).take(0).len() == 0);
    }
    None
}

/// Rewrites `{{chart:<id>}}` markers to readable `[图表:<title>]` (see
/// [`rewrite_spec`]) before a text is replayed into the model's history.
pub fn rewrite_chart_markers(text: &str, chart_titles: &[(String, Option<String>)]) -> (r: String)
    ensures
        r@ == rewrite_spec(text@, title_views(chart_titles@)),
{
    let sv = chars_of(text);
    let s = &sv;
    let n = s.len();
    let prefix = chars_of("{{chart:");
    let close = chars_of("}}");
    proof {
        reveal_strlit("{{chart:");
        reveal_strlit("}}");
    }
    let ghost titles = title_views(chart_titles@);
    let mut out: Vec<char> = Vec::new();
    let mut lo: usize = 0;
    proof {
        assert(s@.subrange(0, n as int) =~= s@);
    }
    loop
        invariant
            lo <= n,
            n == s.len(),
            s@ == text@,
            prefix@ == "{{chart:"@,
            close@ == "}}"@,
            prefix@.len() == 8,
            close@.len() == 2,
            titles == title_views(chart_titles@),
            out@ + rewrite_spec(s@.subrange(lo as int, n as int), titles) == rewrite_spec(text@, titles),
        decreases n - lo,
    {
        let ghost rest = s@.subrange(lo as int, n as int);
        proof {
            lemma_find_bounds(rest, prefix@);
        }
        match find_in(s, lo, n, prefix.as_slice()) {
            None => {
                push_range(&mut out, s, lo, n);
                return string_from(out.as_slice());
            },
            Some(start) => {
                let a = lo + start + 8;
                let ghost after = rest.skip(start + 8);
                proof {
                    assert(after =~= s@.subrange(a as int, n as int));
                    lemma_find_bounds(after, close@);
                }
                match find_in(s, a, n, close.as_slice()) {
                    None => {
                        push_range(&mut out, s, lo, n);
                        return string_from(out.as_slice());
                    },
                    Some(end) => {
                        let (ta, tb) = trim_bounds(s, a, a + end);
                        proof {
                            assert(after.take(end as int) =~= s@.subrange(a as int, a + end));
                            assert(rest.take(start as int) =~= s@.subrange(lo as int, lo + start));
                            assert(after.skip(end + 2) =~= s@.subrange(a + end + 2, n as int));
                        }
                        let ghost before = out@;
                        push_range(&mut out, s, lo, lo + start);
                        push_str(&mut out, "[图表");
                        match title_for(chart_titles, s, ta, tb) {
                            Some(t) => {
                                out.push(':');
                                push_str(&mut out, t.as_str());
                            },
                            None => {},
                        }
                        out.push(']');
                        proof {
                            let token = s@.subrange(ta as int, tb as int);
                            assert(out@ == before + (rest.take(start as int) + "[图表"@ + (match chart_title(titles, token) {
                                Some(t) => seq![':'] + t,
                                None => Seq::<char>::empty(),
                            }) + seq![']']));
                        }
                        lo = a + end + 2;
                    },
                }
            },
        }
    }
}

// ---------------------------------------------------------------------------
// history text
// ---------------------------------------------------------------------------

/// What rebuilding the conversation history reads of a stored message
/// segment: its text, or a chart's id and title; other segments add nothing.
#[derive(Debug, Clone)]
pub enum SegmentText {
    Text(String),
    Chart { id: String, title: Option<String> },
    Other,
}

/// The charts among the segments, as `(id, title)`, in order.
pub open spec fn chart_titles_of(segs: Seq<SegmentText>) -> Seq<(Seq<char>, Option<Seq<char>>)>
    decreases segs.len(),
{
    if segs.len() == 0 {
        Seq::empty()
    } else {
        let prev = chart_titles_of(segs.drop_last());
        match segs.last() {
            SegmentText::Chart { id, title } => prev.push((id@, match title {
                Some(t) => Some(t@),
                None => None,
            })),
            _ => prev,
        }
    }
}

/// The text segments, each with its chart markers rewritten, separated by
/// newlines (a separator only after some text).
pub open spec fn segment_text(segs: Seq<SegmentText>, titles: Seq<(Seq<char>, Option<Seq<char>>)>) -> Seq<char>
    decreases segs.len(),
{
    if segs.len() == 0 {
        Seq::empty()
    } else {
        let prev = segment_text(segs.drop_last(), titles);
        match segs.last() {
            SegmentText::Text(t) => {
                let r = rewrite_spec(t@, titles);
                if prev.len() == 0 {
                    r
                } else {
                    prev + seq!['\n'] + r
                }
            },
            _ => prev,
        }
    }
}

/// The text of a stored message for the model: its plain content, or else
/// its text segments, with chart markers made readable.
pub open spec fn message_text(content: Option<Seq<char>>, segs: Option<Seq<SegmentText>>) -> Seq<char> {
    match content {
        Some(c) => rewrite_spec(c, Seq::empty()),
        None => match segs {
            Some(ss) => segment_text(ss, chart_titles_of(ss)),
            None => Seq::empty(),
        },
    }
}

/// The text of a stored message (see [`message_text`]).
pub fn get_message_text(content: Option<&str>, segments: Option<&[SegmentText]>) -> (r: String)
    ensures
        r@ == message_text(match content { Some(c) => Some(c@), None => None }, match segments {
            Some(ss) => Some(ss@),
            None => None,
        }),
{
    if let Some(c) = content {
        let empty: Vec<(String, Option<String>)> = Vec::new();
        proof {
            assert(title_views(empty@) =~= Seq::<(Seq<char>, Option<Seq<char>>)>::empty());
        }
        return rewrite_chart_markers(c, empty.as_slice());
    }
    let segs = match segments {
        Some(ss) => ss,
        None => return String::new(),
    };
    let mut titles: Vec<(String, Option<String>)> = Vec::new();
    let mut k: usize = 0;
    while k < segs.len()
        invariant
            k <= segs.len(),
            title_views(titles@) == chart_titles_of(segs@.take(k as int)),
        decreases segs.len() - k,
    {
        proof {
            assert(segs@.take(k + 1).drop_last() =~= segs@.take(k as int));
            assert(segs@.take(k + 1).last() == segs@[k as int]);
        }
        match &segs[k] {
            SegmentText::Chart { id, title } => {
                let t = match title {
                    Some(x) => Some(x.clone()),
                    None => None,
                };
                let ghost before = titles@;
                titles.push((id.clone(), t));
                proof {
                    assert(title_views(titles@) =~= title_views(before).push((id@, match title {
                        Some(x) => Some(x@),
                        None => None,
                    })));
                }
            },
            _ => {},
        }
        k = k + 1;
    }
    proof {
        assert(segs@.take(segs@.len() as int) =~= segs@);
    }
    let ghost tv = title_views(titles@);
    let mut out: Vec<char> = Vec::new();
    let mut k: usize = 0;
    while k < segs.len()
        invariant
            k <= segs.len(),
            tv == title_views(titles@),
            out@ == segment_text(segs@.take(k as int), tv),
        decreases segs.len() - k,
    {
        proof {
            assert(segs@.take(k + 1).drop_last() =~= segs@.take(k as int));
            assert(segs@.take(k + 1).last() == segs@[k as int]);
        }
        match &segs[k] {
            SegmentText::Text(t) => {
                let r = rewrite_chart_markers(t.as_str(), titles.as_slice());
                if out.len() > 0 {
                    out.push('\n');
                }
                push_str(&mut out, r.as_str());
            },
            _ => {},
        }
        k = k + 1;
    }
    proof {
        assert(segs@.take(segs@.len() as int) =~= segs@);
    }
    string_from(out.as_slice())
}

} // verus!
