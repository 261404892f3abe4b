//! Decisions taken while a model stream runs: what part of a complete
//! reasoning block still has to be shown after its deltas, and what a stream
//! error leads to (a retry before any output, or a report to the user with
//! its diagnosis and where the stream broke off).

use vstd::prelude::*;

use crate::agent::runner::{
    classify_rate_limit_error, contains_any, diagnose_stream_error, diagnosis_spec,
    is_transient_stream_error, is_unknown_tool_call_error, rate_limit_spec, transient_spec,
    unknown_tool_keys, RateLimitKind,
};
use crate::agent::turns::RunOutcome;
use crate::text::{chars_of, decimal, push_str, push_u64, starts_with, string_from};

verus! {

/// What remains to be shown of a complete reasoning block `full` when the
/// deltas already showed `already`: the rest after that prefix, or all of
/// `full` when it does not start with it.
pub open spec fn remainder_spec(full: Seq<char>, already: Seq<char>) -> Seq<char> {
    if starts_with(full, already) {
        full.skip(already.len() as int)
    } else {
        full
    }
}

pub fn reasoning_remainder(full: &str, already: &str) -> (r: String)
    ensures
        r@ == remainder_spec(full@, already@),
{
    let f = chars_of(full);
    let a = chars_of(already);
    if a.len() > f.len() {
        return string_from(f.as_slice());
    }
    let mut k: usize = 0;
    while k < a.len()
        invariant
            a@ == already@,
            f@ == full@,
            a.len() <= f.len(),
            k <= a.len(),
            forall|m: int| 0 <= m < k ==> f@[m] == a@[m],
        decreases a.len() - k,
    {
        if f[k] != a[k] {
            proof {
                assert(full@.take(already@.len() as int)[k as int] != already@[k as int]);
            }
            return string_from(f.as_slice());
        }
        k = k + 1;
    }
    proof {
        assert(full@.take(already@.len() as int) =~= already@);
    }
    let mut out: Vec<char> = Vec::new();
    let mut j: usize = a.len();
    while j < f.len()
        invariant
            f@ == full@,
            a.len() <= j <= f.len(),
            out@ == f@.subrange(a.len() as int, j as int),
        decreases f.len() - j,
    {
        out.push(f[j]);
        proof {
            assert(f@.subrange(a.len() as int, j + 1) =~= f@.subrange(a.len() as int, j as int).push(f@[j as int]));
        }
        j = j + 1;
    }
    proof {
        assert(out@ =~= full@.skip(already@.len() as int));
    }
    string_from(out.as_slice())
}

/// What a stream error leads to.
#[derive(Debug, Clone, PartialEq, Eq)]
pub enum StreamFailure {
    /// Retry the run (the outcome carries the error).
    Retry(RunOutcome),
    /// Show this message as the task's error and end the run.
    Report(String),
}

pub open spec fn stage_text(emitted_any: bool) -> Seq<char> {
    if emitted_any {
        "流式输出过程中"@
    } else {
        "请求建立阶段"@
    }
}

/// The error message with the diagnosis and where the stream broke off,
/// when the cause is recognised.
pub open spec fn with_diagnosis(msg: Seq<char>, emitted_any: bool, approx_out: u64, elapsed_secs: u64) -> Seq<char> {
    match diagnosis_spec(msg) {
        Some(d) => msg + "\n\n【原因】"@ + d + "。\n【位置】"@ + stage_text(emitted_any) + "（已输出约 "@
            + decimal(approx_out as int) + " tokens，耗时 "@ + decimal(elapsed_secs as int) + " 秒）"@
            + (if emitted_any { "；已生成的部分内容已保留"@ } else { Seq::empty() }) + "。"@
            + "\n可稍后重发继续；频繁出现请检查网络/代理，或更换模型端点。"@,
        None => msg,
    }
}

pub open spec fn unknown_tool_note() -> Seq<char> {
    "\n\n模型尝试调用了一个不在工具列表中的函数，请求被服务端否决。这类失败通常由模型臆造工具名引起，直接重试或换个模型即可恢复。"@
}

/// The report shown for a stream error that is not retried: the diagnosed
/// message, with a note when the provider refused an unknown tool call.
pub open spec fn failure_report(msg: Seq<char>, emitted_any: bool, approx_out: u64, elapsed_secs: u64) -> Seq<char> {
    let m = with_diagnosis(msg, emitted_any, approx_out, elapsed_secs);
    if contains_any(m, unknown_tool_keys()) {
        m + unknown_tool_note()
    } else {
        m
    }
}

/// A stream error before any output that is throttling is retried as a rate
/// limit; one that is a dropped connection is retried as transient; any
/// other error, and every error after output began, is reported. The report
/// states about `approx_out` tokens produced in `elapsed_secs` seconds.
pub fn stream_failure(msg: &str, emitted_any: bool, approx_out: u64, elapsed_secs: u64) -> (r: StreamFailure)
    ensures
        match r {
            StreamFailure::Retry(RunOutcome::RateLimited(s)) => {
                &&& !emitted_any
                &&& rate_limit_spec(msg@) == RateLimitKind::Retriable
                &&& s@ == msg@
            },
            StreamFailure::Retry(RunOutcome::Transient(s)) => {
                &&& !emitted_any
                &&& rate_limit_spec(msg@) != RateLimitKind::Retriable
                &&& transient_spec(msg@)
                &&& s@ == msg@
            },
            StreamFailure::Retry(RunOutcome::Done) => false,
            StreamFailure::Report(s) => {
                &&& (emitted_any || (rate_limit_spec(msg@) != RateLimitKind::Retriable && !transient_spec(msg@)))
                &&& s@ == failure_report(msg@, emitted_any, approx_out, elapsed_secs)
            },
        },
{
    if !emitted_any {
        match classify_rate_limit_error(msg) {
            RateLimitKind::Retriable => {
                return StreamFailure::Retry(RunOutcome::RateLimited(string_from(chars_of(msg).as_slice())));
            },
            _ => {},
        }
        if is_transient_stream_error(msg) {
            return StreamFailure::Retry(RunOutcome::Transient(string_from(chars_of(msg).as_slice())));
        }
    }
    let mut m: Vec<char> = Vec::new();
    push_str(&mut m, msg);
    match diagnose_stream_error(msg) {
        Some(d) => {
            push_str(&mut m, "\n\n【原因】");
            push_str(&mut m, d);
            push_str(&mut m, "。\n【位置】");
            if emitted_any {
                push_str(&mut m, "流式输出过程中");
            } else {
                push_str(&mut m, "请求建立阶段");
            }
            push_str(&mut m, "（已输出约 ");
            push_u64(&mut m, approx_out);
            push_str(&mut m, " tokens，耗时 ");
            push_u64(&mut m, elapsed_secs);
            push_str(&mut m, " 秒）");
            if emitted_any {
                push_str(&mut m, "；已生成的部分内容已保留");
            }
            push_str(&mut m, "。");
            push_str(&mut m, "\n可稍后重发继续；频繁出现请检查网络/代理，或更换模型端点。");
            proof {
                assert(m@ =~= with_diagnosis(msg@, emitted_any, approx_out, elapsed_secs));
            }
        },
        None => {},
    }
    let diagnosed = string_from(m.as_slice());
    if is_unknown_tool_call_error(diagnosed.as_str()) {
        push_str(&mut m, "\n\n模型尝试调用了一个不在工具列表中的函数，请求被服务端否决。这类失败通常由模型臆造工具名引起，直接重试或换个模型即可恢复。");
    }
    StreamFailure::Report(string_from(m.as_slice()))
}

} // verus!
