//! The confirmation step of a write tool. In the mode `变更前确认` a write
//! is parked until the user approves or cancels it; in any other mode it runs
//! at once. The step is a state machine from the tool's state and an event
//! to the next state and the action the caller performs.

use vstd::prelude::*;

use crate::text::{decimal, digit_char, digits, push_i64, push_str, push_u64, str_eq, string_from};

verus! {

/// The confirm mode that parks writes until the user decides.
pub open spec fn confirm_first_mode() -> Seq<char> {
    "变更前确认"@
}

/// Whether a write must wait for the user in this confirm mode.
pub fn needs_confirmation(confirm_mode: &str) -> (b: bool)
    ensures
        b == (confirm_mode@ == confirm_first_mode()),
{
    str_eq(confirm_mode, "变更前确认")
}

/// The id of a tool call: `tool-{prefix}-{ms}-{seq}`, from the time in
/// milliseconds and a number that the caller never hands out twice.
pub open spec fn tool_id_spec(prefix: Seq<char>, ms: int, seq: nat) -> Seq<char> {
    "tool-"@ + prefix + "-"@ + decimal(ms) + "-"@ + digits(seq)
}

pub fn tool_call_id(prefix: &str, ms: i64, seq: u64) -> (r: String)
    ensures
        r@ == tool_id_spec(prefix@, ms as int, seq as nat),
{
    let mut out: Vec<char> = Vec::new();
    push_str(&mut out, "tool-");
    push_str(&mut out, prefix);
    push_str(&mut out, "-");
    push_i64(&mut out, ms);
    push_str(&mut out, "-");
    push_u64(&mut out, seq);
    string_from(out.as_slice())
}

/// The id of the next tool call, numbered `seq` by the caller (who never
/// hands a number out twice): [`tool_call_id`] at the current time in
/// milliseconds, whatever that is.
pub fn next_tool_id(prefix: &str, seq: u64) -> (r: String)
    ensures
        exists|ms: int| #[trigger] tool_id_spec(prefix@, ms, seq as nat) == r@,
{
    let ms = crate::db::now_ms();
    let r = tool_call_id(prefix, ms, seq);
    assert(tool_id_spec(prefix@, ms as int, seq as nat) == r@);
    r
}

/// The key under which a parked write waits: `task_id:call_id`.
pub fn confirmation_key(task_id: &str, call_id: &str) -> (r: String)
    ensures
        r@ == task_id@ + ":"@ + call_id@,
{
    let mut out: Vec<char> = Vec::new();
    push_str(&mut out, task_id);
    push_str(&mut out, ":");
    push_str(&mut out, call_id);
    string_from(out.as_slice())
}

/// The error reported when the user cancels a parked write.
pub open spec fn cancelled_text() -> Seq<char> {
    "用户已取消此操作"@
}

pub fn cancelled_message() -> (r: String)
    ensures
        r@ == cancelled_text(),
{
    let mut out: Vec<char> = Vec::new();
    push_str(&mut out, "用户已取消此操作");
    string_from(out.as_slice())
}

/// Where a write tool stands.
#[derive(Debug, Clone, Copy, PartialEq, Eq, Structural)]
pub enum ConfirmState {
    /// Not started.
    Idle,
    /// Parked until the user decides.
    Awaiting,
    /// The write runs.
    Running,
    /// Over.
    Done,
}

/// What happens to a write tool.
#[derive(Debug, Clone, Copy, PartialEq, Eq, Structural)]
pub enum ConfirmEvent {
    /// The tool is called; `confirm` when its mode parks writes.
    Start { confirm: bool },
    /// The user decided, or the decision was lost (`approved` false).
    Decision { approved: bool },
    /// The write finished, successfully or not.
    Finished { ok: bool },
}

/// What the caller does next.
#[derive(Debug, Clone, Copy, PartialEq, Eq, Structural)]
pub enum ConfirmAction {
    /// Register the pending confirmation and tell the UI it awaits the user.
    Park,
    /// Run the write.
    Execute,
    /// Report the cancellation as the tool's error.
    Cancel,
    /// Report the write's summary as the tool's result.
    ReportOk,
    /// Report the write's error as the tool's result.
    ReportErr,
    /// Nothing: the event does not apply in this state.
    Ignore,
}

/// The transition of the confirmation step.
pub open spec fn confirm_spec(s: ConfirmState, e: ConfirmEvent) -> (ConfirmState, ConfirmAction) {
    match (s, e) {
        (ConfirmState::Idle, ConfirmEvent::Start { confirm }) => if confirm {
            (ConfirmState::Awaiting, ConfirmAction::Park)
        } else {
            (ConfirmState::Running, ConfirmAction::Execute)
        },
        (ConfirmState::Awaiting, ConfirmEvent::Decision { approved }) => if approved {
            (ConfirmState::Running, ConfirmAction::Execute)
        } else {
            (ConfirmState::Done, ConfirmAction::Cancel)
        },
        (ConfirmState::Running, ConfirmEvent::Finished { ok }) => if ok {
            (ConfirmState::Done, ConfirmAction::ReportOk)
        } else {
            (ConfirmState::Done, ConfirmAction::ReportErr)
        },
        _ => (s, ConfirmAction::Ignore),
    }
}

pub fn confirm_step(s: ConfirmState, e: ConfirmEvent) -> (r: (ConfirmState, ConfirmAction))
    ensures
        r == confirm_spec(s, e),
{
    match (s, e) {
        (ConfirmState::Idle, ConfirmEvent::Start { confirm }) => if confirm {
            (ConfirmState::Awaiting, ConfirmAction::Park)
        } else {
            (ConfirmState::Running, ConfirmAction::Execute)
        },
        (ConfirmState::Awaiting, ConfirmEvent::Decision { approved }) => if approved {
            (ConfirmState::Running, ConfirmAction::Execute)
        } else {
            (ConfirmState::Done, ConfirmAction::Cancel)
        },
        (ConfirmState::Running, ConfirmEvent::Finished { ok }) => if ok {
            (ConfirmState::Done, ConfirmAction::ReportOk)
        } else {
            (ConfirmState::Done, ConfirmAction::ReportErr)
        },
        _ => (s, ConfirmAction::Ignore),
    }
}

/// The state after a run of events from `Idle`.
pub open spec fn confirm_after(events: Seq<ConfirmEvent>) -> ConfirmState
    decreases events.len(),
{
    if events.len() == 0 {
        ConfirmState::Idle
    } else {
        confirm_spec(confirm_after(events.drop_last()), events.last()).0
    }
}

/// The action that the last of `events` (from `Idle`) leads to.
pub open spec fn last_action(events: Seq<ConfirmEvent>) -> ConfirmAction
    recommends
        events.len() > 0,
{
    confirm_spec(confirm_after(events.drop_last()), events.last()).1
}

/// Law: a started confirmation step never returns to `Idle`, so it is started once.
pub proof fn lemma_started_never_idle(events: Seq<ConfirmEvent>)
    requires
        events.len() > 0,
        events[0] is Start,
    ensures
        confirm_after(events) != ConfirmState::Idle,
    decreases events.len(),
{
    if events.len() > 1 {
        lemma_started_never_idle(events.drop_last());
    }
}

/// Law: in the mode that parks writes, a write runs only after the user
/// approved it: when a run of events that began with a confirming start
/// leads to `Execute`, its last event is an approval that came while the
/// step awaited the user.
pub proof fn lemma_execute_needs_approval(events: Seq<ConfirmEvent>)
    requires
        events.len() > 0,
        events[0] == (ConfirmEvent::Start { confirm: true }),
        last_action(events) == ConfirmAction::Execute,
    ensures
        events.len() > 1,
        confirm_after(events.drop_last()) == ConfirmState::Awaiting,
        events.last() == (ConfirmEvent::Decision { approved: true }),
{
    if events.len() > 1 {
        assert(events.drop_last()[0] == events[0]);
        lemma_started_never_idle(events.drop_last());
    }
}

/// Law: once over, the step stays over and does nothing more.
pub proof fn lemma_done_is_final(events: Seq<ConfirmEvent>, more: Seq<ConfirmEvent>)
    requires
        confirm_after(events) == ConfirmState::Done,
    ensures
        confirm_after(events + more) == ConfirmState::Done,
    decreases more.len(),
{
    if more.len() == 0 {
        assert(events + more =~= events);
    } else {
        lemma_done_is_final(events, more.drop_last());
        assert((events + more).drop_last() =~= events + more.drop_last());
    }
}

proof fn lemma_digits_no_dash(n: nat)
    ensures
        forall|k: int| 0 <= k < digits(n).len() ==> #[trigger] digits(n)[k] != '-',
        digits(n).len() >= 1,
    decreases n,
{
    if n >= 10 {
        lemma_digits_no_dash(n / 10);
    }
}

proof fn lemma_digits_injective(n: nat, m: nat)
    requires
        digits(n) == digits(m),
    ensures
        n == m,
    decreases n,
{
    lemma_digits_no_dash(n);
    lemma_digits_no_dash(m);
    if n >= 10 {
        lemma_digits_no_dash(n / 10);
    }
    if m >= 10 {
        lemma_digits_no_dash(m / 10);
    }
    if n < 10 && m < 10 {
        assert(digits(n)[0] == digit_char(n as int));
        assert(digits(m)[0] == digit_char(m as int));
    } else if n >= 10 && m >= 10 {
        let a = digits(n / 10);
        let b = digits(m / 10);
        assert(digits(n).last() == digit_char((n % 10) as int));
        assert(digits(m).last() == digit_char((m % 10) as int));
        assert(a =~= digits(n).drop_last());
        assert(b =~= digits(m).drop_last());
        lemma_digits_injective(n / 10, m / 10);
    } else {
        assert(digits(n).len() != digits(m).len());
    }
}

/// Law: tool calls numbered differently get different ids, whatever their
/// prefixes and times.
pub proof fn lemma_tool_ids_unique(p1: Seq<char>, ms1: int, s1: nat, p2: Seq<char>, ms2: int, s2: nat)
    requires
        s1 != s2,
    ensures
        tool_id_spec(p1, ms1, s1) != tool_id_spec(p2, ms2, s2),
{
    let a = tool_id_spec(p1, ms1, s1);
    let b = tool_id_spec(p2, ms2, s2);
    let d1 = digits(s1);
    let d2 = digits(s2);
    lemma_digits_no_dash(s1);
    lemma_digits_no_dash(s2);
    let h1 = "tool-"@ + p1 + "-"@ + decimal(ms1) + "-"@;
    let h2 = "tool-"@ + p2 + "-"@ + decimal(ms2) + "-"@;
    reveal_strlit("-");
    assert(a =~= h1 + d1);
    assert(b =~= h2 + d2);
    assert(h1.last() == '-');
    assert(h2.last() == '-');
    if a == b {
        if d1.len() < d2.len() {
            let k = a.len() - d1.len() - 1;
            assert(a[k] == h1.last());
            assert(b[k] == d2[k - h2.len()]);
        } else if d2.len() < d1.len() {
            let k = b.len() - d2.len() - 1;
            assert(b[k] == h2.last());
            assert(a[k] == d1[k - h1.len()]);
        } else {
            assert(d1 =~= a.skip(h1.len() as int));
            assert(d2 =~= b.skip(h2.len() as int));
            lemma_digits_injective(s1, s2);
        }
    }
}

} // verus!
