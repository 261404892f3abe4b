//! The decisions around one agent run: reasoning effort and token limits
//! from the request, the history replayed to the model, the runtime context
//! sent with the prompt, the client kind of a provider, and what follows a
//! finished stream (done, retry after a back-off, or fail with a message).

use vstd::prelude::*;

use crate::agent::config::ModelProvider;
use crate::agent::runner::{diagnose_stream_error, diagnosis_spec, message_text, get_message_text, SegmentText};
use crate::text::{push_str, str_eq, string_from, to_lowercase, unicode_lower};

verus! {

/// The two scenarios of the workbench.
#[derive(Debug, Clone, Copy, PartialEq, Eq, Structural)]
pub enum Scenario {
    General,
    DataAnalysis,
}

/// Reasoning effort of a priority: `最高` is high, `最快` low, anything else
/// medium.
pub open spec fn effort_spec(priority: Seq<char>) -> Seq<char> {
    if priority == "最高"@ {
        "high"@
    } else if priority == "最快"@ {
        "low"@
    } else {
        "medium"@
    }
}

pub fn effort_for(priority: &str) -> (r: &'static str)
    ensures
        r@ == effort_spec(priority@),
{
    if str_eq(priority, "最高") {
        "high"
    } else if str_eq(priority, "最快") {
        "low"
    } else {
        "medium"
    }
}

/// Extended-thinking budget of an effort: high 16000, medium 8000, none
/// otherwise.
pub open spec fn thinking_budget_spec(effort: Seq<char>) -> u64 {
    if effort == "high"@ {
        16000
    } else if effort == "medium"@ {
        8000
    } else {
        0
    }
}

pub fn thinking_budget(effort: &str) -> (r: u64)
    ensures
        r == thinking_budget_spec(effort@),
{
    if str_eq(effort, "high") {
        16000
    } else if str_eq(effort, "medium") {
        8000
    } else {
        0
    }
}

/// Output limit of an Anthropic request: the thinking budget plus 4096, or
/// 4096 without thinking.
pub fn anthropic_max_tokens(budget: u64) -> (r: u64)
    requires
        budget <= u64::MAX - 4096,
    ensures
        r == (if budget > 0 { budget + 4096 } else { 4096 }),
{
    if budget > 0 {
        budget + 4096
    } else {
        4096
    }
}

/// The output limit configured for a model of the provider: that of the
/// first model with this id, 4096 when none is set or no model matches.
pub open spec fn max_tokens_spec(models: Seq<crate::agent::config::ModelItem>, id: Seq<char>) -> u64
    decreases models.len(),
{
    if models.len() == 0 {
        4096
    } else if models[0].id@ == id {
        match models[0].max_tokens {
            Some(m) => m as u64,
            None => 4096,
        }
    } else {
        max_tokens_spec(models.drop_first(), id)
    }
}

pub fn max_tokens_limit(provider: &ModelProvider, model_id: &str) -> (r: u64)
    ensures
        r == max_tokens_spec(provider.models@, model_id@),
{
    let ms = &provider.models;
    let mut k: usize = 0;
    proof {
        assert(ms@.skip(0) =~= ms@);
    }
    while k < ms.len()
        invariant
            k <= ms.len(),
            ms@ == provider.models@,
            max_tokens_spec(ms@, model_id@) == max_tokens_spec(ms@.skip(k as int), model_id@),
        decreases ms.len() - k,
    {
        proof {
            assert(ms@.skip(k as int)[0] == ms@[k as int]);
            assert(ms@.skip(k as int).drop_first() =~= ms@.skip(k + 1));
        }
        if str_eq(ms[k].id.as_str(), model_id) {
            proof {
                let rest = ms@.skip(k as int);
                assert(rest.len() > 0);
                assert(rest[0].id@ == model_id@);
                assert(max_tokens_spec(rest, model_id@) == match rest[0].max_tokens {
                    Some(m) => m as u64,
                    None => 4096u64,
                });
            }
            return match ms[k].max_tokens {
                Some(m) => m as u64,
                None => 4096,
            };
        }
        k = k + 1;
    }
    4096
}

/// The client kind of a provider's API format.
#[derive(Debug, Clone, Copy, PartialEq, Eq, Structural)]
pub enum ApiFormat {
    OpenAi,
    Responses,
    Anthropic,
}

/// The API format named by a provider (case ignored), or the error naming
/// an unsupported one.
pub open spec fn api_format_spec(raw: Seq<char>) -> Result<ApiFormat, Seq<char>> {
    let f = unicode_lower(raw);
    if f == "openai"@ {
        Ok(ApiFormat::OpenAi)
    } else if f == "responses"@ {
        Ok(ApiFormat::Responses)
    } else if f == "anthropic"@ {
        Ok(ApiFormat::Anthropic)
    } else {
        Err("不支持的 API 格式: "@ + raw)
    }
}

pub fn api_format(raw: &str) -> (r: Result<ApiFormat, String>)
    ensures
        match api_format_spec(raw@) {
            Ok(f) => r == Ok::<ApiFormat, String>(f),
            Err(e) => r matches Err(x) && x@ == e,
        },
{
    let f = to_lowercase(raw);
    if str_eq(f.as_str(), "openai") {
        Ok(ApiFormat::OpenAi)
    } else if str_eq(f.as_str(), "responses") {
        Ok(ApiFormat::Responses)
    } else if str_eq(f.as_str(), "anthropic") {
        Ok(ApiFormat::Anthropic)
    } else {
        let mut m: Vec<char> = Vec::new();
        push_str(&mut m, "不支持的 API 格式: ");
        push_str(&mut m, raw);
        Err(string_from(m.as_slice()))
    }
}

// ---------------------------------------------------------------------------
// history and prompt
// ---------------------------------------------------------------------------

/// A stored chat message: its role, its plain content (older messages), or
/// its segments.
#[derive(Debug, Clone)]
pub struct StoredMessage {
    pub role: String,
    pub content: Option<String>,
    pub segments: Option<Vec<SegmentText>>,
}

/// One turn of the history replayed to the model.
#[derive(Debug, Clone, PartialEq, Eq)]
pub enum Turn {
    User(String),
    Assistant(String),
}

pub open spec fn stored_text(m: StoredMessage) -> Seq<char> {
    message_text(
        match m.content {
            Some(c) => Some(c@),
            None => None,
        },
        match m.segments {
            Some(ss) => Some(ss@),
            None => None,
        },
    )
}

pub open spec fn turn_view(t: Turn) -> (bool, Seq<char>) {
    match t {
        Turn::User(s) => (true, s@),
        Turn::Assistant(s) => (false, s@),
    }
}

/// The turns of a stored history: each message with some text, as a user
/// or an assistant turn by its role; other roles and empty messages drop.
pub open spec fn turns_spec(msgs: Seq<StoredMessage>) -> Seq<(bool, Seq<char>)>
    decreases msgs.len(),
{
    if msgs.len() == 0 {
        Seq::empty()
    } else {
        let prev = turns_spec(msgs.drop_last());
        let m = msgs.last();
        let t = stored_text(m);
        if t.len() == 0 {
            prev
        } else if m.role@ == "user"@ {
            prev.push((true, t))
        } else if m.role@ == "assistant"@ {
            prev.push((false, t))
        } else {
            prev
        }
    }
}

/// The history replayed to the model (see [`turns_spec`]).
pub fn history_turns(msgs: &[StoredMessage]) -> (r: Vec<Turn>)
    ensures
        Seq::new(r@.len(), |i: int| turn_view(r@[i])) == turns_spec(msgs@),
{
    let mut out: Vec<Turn> = Vec::new();
    let mut k: usize = 0;
    while k < msgs.len()
        invariant
            k <= msgs.len(),
            Seq::new(out@.len(), |i: int| turn_view(out@[i])) == turns_spec(msgs@.take(k as int)),
        decreases msgs.len() - k,
    {
        proof {
            assert(msgs@.take(k + 1).drop_last() =~= msgs@.take(k as int));
            assert(msgs@.take(k + 1).last() == msgs@[k as int]);
        }
        let m = &msgs[k];
        let content: Option<&str> = match &m.content {
            Some(c) => Some(c.as_str()),
            None => None,
        };
        let segs: Option<&[SegmentText]> = match &m.segments {
            Some(ss) => Some(ss.as_slice()),
            None => None,
        };
        let text = get_message_text(content, segs);
        let ghost before = Seq::new(out@.len(), |i: int| turn_view(out@[i]));
        if text.as_str().is_empty() {
        } else if str_eq(m.role.as_str(), "user") {
            out.push(Turn::User(text));
            proof {
                assert(Seq::new(out@.len(), |i: int| turn_view(out@[i])) =~= before.push((true, stored_text(msgs@[k as int]))));
            }
        } else if str_eq(m.role.as_str(), "assistant") {
            out.push(Turn::Assistant(text));
            proof {
                assert(Seq::new(out@.len(), |i: int| turn_view(out@[i])) =~= before.push((false, stored_text(msgs@[k as int]))));
            }
        }
        k = k + 1;
    }
    proof {
        assert(msgs@.take(msgs@.len() as int) =~= msgs@);
    }
    out
}

/// The line telling the model the current date and weekday.
pub open spec fn time_line(date: Seq<char>, weekday: Seq<char>) -> Seq<char> {
    "# 当前时间\n现在是 "@ + date + "（"@ + weekday + "）。用户提到「今天」「本周」「下周一」「本月」等相对时间时，以此为准。"@
}

pub fn current_time_line(date: &str, weekday: &str) -> (r: String)
    ensures
        r@ == time_line(date@, weekday@),
{
    let mut out: Vec<char> = Vec::new();
    push_str(&mut out, "# 当前时间\n现在是 ");
    push_str(&mut out, date);
    push_str(&mut out, "（");
    push_str(&mut out, weekday);
    push_str(&mut out, "）。用户提到「今天」「本周」「下周一」「本月」等相对时间时，以此为准。");
    proof {
        assert(out@ =~= time_line(date@, weekday@));
    }
    string_from(out.as_slice())
}

/// The runtime context sent with each prompt: the time line, and in the
/// data-analysis scenario the knowledge outline after it (when not empty).
pub open spec fn context_spec(scenario: Scenario, now_line: Seq<char>, outline: Seq<char>) -> Seq<char> {
    match scenario {
        Scenario::DataAnalysis => if outline.len() == 0 {
            now_line
        } else {
            now_line + "\n\n"@ + outline
        },
        Scenario::General => now_line,
    }
}

pub fn runtime_context(scenario: Scenario, now_line: &str, outline: &str) -> (r: String)
    ensures
        r@ == context_spec(scenario, now_line@, outline@),
{
    let mut out: Vec<char> = Vec::new();
    push_str(&mut out, now_line);
    match scenario {
        Scenario::DataAnalysis => {
            if !outline.is_empty() {
                push_str(&mut out, "\n\n");
                push_str(&mut out, outline);
            }
        },
        Scenario::General => {},
    }
    proof {
        assert(out@ =~= context_spec(scenario, now_line@, outline@));
    }
    string_from(out.as_slice())
}

/// The prompt sent to the model: the runtime context block, then the user's
/// text.
pub open spec fn prompt_spec(ctx: Seq<char>, prompt: Seq<char>) -> Seq<char> {
    "<runtime_context>\n"@ + ctx + "\n</runtime_context>\n\n"@ + prompt
}

pub fn llm_prompt(ctx: &str, prompt: &str) -> (r: String)
    ensures
        r@ == prompt_spec(ctx@, prompt@),
{
    let mut out: Vec<char> = Vec::new();
    push_str(&mut out, "<runtime_context>\n");
    push_str(&mut out, ctx);
    push_str(&mut out, "\n</runtime_context>\n\n");
    push_str(&mut out, prompt);
    proof {
        assert(out@ =~= prompt_spec(ctx@, prompt@));
    }
    string_from(out.as_slice())
}

// ---------------------------------------------------------------------------
// after a stream
// ---------------------------------------------------------------------------

/// How many times a stream that failed before any output is retried.
pub const MAX_RETRIES: u64 = 4;

/// The first back-off; each retry waits twice as long as the one before.
pub const BASE_DELAY_SECS: u64 = 5;

/// How a stream ended: done, or failed before any output by throttling or
/// by a dropped connection (with the last error).
#[derive(Debug, Clone, PartialEq, Eq)]
pub enum RunOutcome {
    Done,
    RateLimited(String),
    Transient(String),
}

/// What the run does next.
#[derive(Debug, Clone, PartialEq, Eq)]
pub enum StreamStep {
    /// The run is over.
    Finish,
    /// Announce retry `attempt` of `max_attempts`, wait `delay_secs`, and run
    /// the stream again.
    Retry { attempt: u64, max_attempts: u64, delay_secs: u64 },
    /// Report this error and end the run.
    Fail(String),
}

/// The wait before retry `attempt` (from 1): 5, 10, 20, 40 seconds.
pub open spec fn backoff(attempt: nat) -> nat
    decreases attempt,
{
    if attempt <= 1 {
        BASE_DELAY_SECS as nat
    } else {
        2 * backoff((attempt - 1) as nat)
    }
}

/// What follows attempt `attempt` (from 1) ending with `outcome`: a retry
/// while attempts remain after a failure before output; otherwise the end,
/// with a message saying why when it failed.
pub open spec fn next_step_spec(outcome: RunOutcome, attempt: nat) -> (bool, nat, Option<Seq<char>>) {
    match outcome {
        RunOutcome::Done => (false, 0, None),
        RunOutcome::RateLimited(last) => if attempt <= MAX_RETRIES {
            (true, backoff(attempt), None)
        } else {
            (false, 0, Some("已自动重试 4 次仍被速率限制（429），请稍候降低请求频率或更换模型后重试。\n"@ + last@))
        },
        RunOutcome::Transient(last) => if attempt <= MAX_RETRIES {
            (true, backoff(attempt), None)
        } else {
            let cause = match diagnosis_spec(last@) {
                Some(d) => "："@ + d,
                None => Seq::empty(),
            };
            (false, 0, Some("网络或服务端连接中断"@ + cause + "。已自动重试 4 次仍失败，请稍后重发或更换模型。\n"@ + last@))
        },
    }
}

pub open spec fn step_view(s: StreamStep, attempt: nat) -> (bool, nat, Option<Seq<char>>) {
    match s {
        StreamStep::Finish => (false, 0, None),
        StreamStep::Retry { attempt: a, max_attempts: m, delay_secs: d } => (a == attempt && m == MAX_RETRIES, d as nat, None),
        StreamStep::Fail(e) => (false, 0, Some(e@)),
    }
}

/// What follows attempt `attempt` (see [`next_step_spec`]).
pub fn next_step(outcome: &RunOutcome, attempt: u64) -> (r: StreamStep)
    requires
        attempt >= 1,
    ensures
        step_view(r, attempt as nat) == next_step_spec(*outcome, attempt as nat),
        r is Retry <==> (outcome !is Done && attempt <= MAX_RETRIES),
{
    match outcome {
        RunOutcome::Done => StreamStep::Finish,
        RunOutcome::RateLimited(last) => {
            if attempt <= MAX_RETRIES {
                StreamStep::Retry { attempt, max_attempts: MAX_RETRIES, delay_secs: backoff_secs(attempt) }
            } else {
                let mut m: Vec<char> = Vec::new();
                push_str(&mut m, "已自动重试 4 次仍被速率限制（429），请稍候降低请求频率或更换模型后重试。\n");
                push_str(&mut m, last.as_str());
                StreamStep::Fail(string_from(m.as_slice()))
            }
        },
        RunOutcome::Transient(last) => {
            if attempt <= MAX_RETRIES {
                StreamStep::Retry { attempt, max_attempts: MAX_RETRIES, delay_secs: backoff_secs(attempt) }
            } else {
                let mut m: Vec<char> = Vec::new();
                push_str(&mut m, "网络或服务端连接中断");
                match diagnose_stream_error(last.as_str()) {
                    Some(d) => {
                        push_str(&mut m, "：");
                        push_str(&mut m, d);
                    },
                    None => {},
                }
                push_str(&mut m, "。已自动重试 4 次仍失败，请稍后重发或更换模型。\n");
                push_str(&mut m, last.as_str());
                proof {
                    let cause = match diagnosis_spec(last@) {
                        Some(d) => "："@ + d,
                        None => Seq::<char>::empty(),
                    };
                    assert(m@ =~= "网络或服务端连接中断"@ + cause + "。已自动重试 4 次仍失败，请稍后重发或更换模型。\n"@ + last@);
                }
                StreamStep::Fail(string_from(m.as_slice()))
            }
        },
    }
}

/// [`backoff`] for a retry that can happen.
fn backoff_secs(attempt: u64) -> (r: u64)
    requires
        1 <= attempt <= MAX_RETRIES,
    ensures
        r == backoff(attempt as nat),
{
    let mut d: u64 = BASE_DELAY_SECS;
    let mut k: u64 = 1;
    while k < attempt
        invariant
            1 <= k <= attempt <= MAX_RETRIES,
            d == backoff(k as nat),
        decreases attempt - k,
    {
        proof {
            assert(backoff((k + 1) as nat) == 2 * backoff(k as nat));
            assert(backoff(1) == 5);
            assert(backoff(2) == 10);
            assert(backoff(3) == 20);
            assert(d <= 20);
        }
        d = d * 2;
        k = k + 1;
    }
    d
}

/// Law: a run makes at most `MAX_RETRIES + 1` attempts: after the last one a
/// failure ends it.
pub proof fn lemma_retries_bounded(outcome: RunOutcome)
    ensures
        !next_step_spec(outcome, (MAX_RETRIES + 1) as nat).0,
{
}

/// Law: each retry waits twice as long as the one before.
pub proof fn lemma_backoff_doubles(attempt: nat)
    requires
        attempt >= 1,
    ensures
        backoff(attempt + 1) == 2 * backoff(attempt),
{
}

} // verus!
