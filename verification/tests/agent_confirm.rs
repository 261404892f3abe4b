use daw::agent::confirm::{
    cancelled_message, confirmation_key, confirm_step, needs_confirmation, ConfirmAction, ConfirmEvent,
    ConfirmState,
};

#[test]
fn only_confirm_first_mode_parks() {
    assert!(needs_confirmation("变更前确认"));
    assert!(!needs_confirmation("自动执行"));
    assert!(!needs_confirmation(""));
}

#[test]
fn key_joins_task_and_call() {
    assert_eq!(confirmation_key("t1", "leave-7"), "t1:leave-7");
}

#[test]
fn cancel_text() {
    assert_eq!(cancelled_message(), "用户已取消此操作");
}

#[test]
fn confirming_waits_for_approval() {
    let (s, a) = confirm_step(ConfirmState::Idle, ConfirmEvent::Start { confirm: true });
    assert_eq!((s, a), (ConfirmState::Awaiting, ConfirmAction::Park));
    // a result arriving before the decision changes nothing
    assert_eq!(confirm_step(s, ConfirmEvent::Finished { ok: true }), (ConfirmState::Awaiting, ConfirmAction::Ignore));
    let (s, a) = confirm_step(s, ConfirmEvent::Decision { approved: true });
    assert_eq!((s, a), (ConfirmState::Running, ConfirmAction::Execute));
    assert_eq!(confirm_step(s, ConfirmEvent::Finished { ok: false }), (ConfirmState::Done, ConfirmAction::ReportErr));
}

#[test]
fn cancelled_never_executes() {
    let (s, _) = confirm_step(ConfirmState::Idle, ConfirmEvent::Start { confirm: true });
    let (s, a) = confirm_step(s, ConfirmEvent::Decision { approved: false });
    assert_eq!((s, a), (ConfirmState::Done, ConfirmAction::Cancel));
    assert_eq!(confirm_step(s, ConfirmEvent::Decision { approved: true }), (ConfirmState::Done, ConfirmAction::Ignore));
}

#[test]
fn automatic_mode_runs_at_once() {
    let (s, a) = confirm_step(ConfirmState::Idle, ConfirmEvent::Start { confirm: false });
    assert_eq!((s, a), (ConfirmState::Running, ConfirmAction::Execute));
    assert_eq!(confirm_step(s, ConfirmEvent::Finished { ok: true }), (ConfirmState::Done, ConfirmAction::ReportOk));
}

#[test]
fn tool_call_ids_carry_prefix_time_and_sequence() {
    assert_eq!(daw::agent::confirm::tool_call_id("leave", 1700000000123, 7), "tool-leave-1700000000123-7");
}

#[test]
fn next_tool_id_ends_with_its_number() {
    let id = daw::agent::confirm::next_tool_id("leave", 42);
    assert!(id.starts_with("tool-leave-"));
    assert!(id.ends_with("-42"));
    assert_ne!(id, daw::agent::confirm::next_tool_id("leave", 43));
}
