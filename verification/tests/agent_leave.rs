use daw::agent::submit_leave::{compute_days, parse_date};

#[test]
fn days_single_day() {
    assert_eq!(compute_days("2026-08-03", "2026-08-03").unwrap() as f64, 1.0);
}

#[test]
fn days_three_days() {
    assert_eq!(compute_days("2026-08-03", "2026-08-05").unwrap() as f64, 3.0);
}

#[test]
fn days_across_month() {
    assert_eq!(compute_days("2026-08-30", "2026-09-02").unwrap() as f64, 4.0);
}

#[test]
fn days_rejects_inverted_range() {
    assert!(compute_days("2026-08-05", "2026-08-03").is_err());
}

#[test]
fn days_rejects_bad_format() {
    assert!(compute_days("2026/08/03", "2026-08-05").is_err());
    assert!(compute_days("2026-8-3", "2026-08-05").is_err());
}

#[test]
fn day_numbers_of_known_dates() {
    assert_eq!(parse_date("1970-01-01"), Some(0));
    assert_eq!(parse_date("2000-03-01"), Some(11017));
    assert_eq!(parse_date("2026-13-01"), None);
    assert_eq!(parse_date("2026-01-32"), None);
}

#[test]
fn error_messages_name_the_input() {
    assert_eq!(
        compute_days("x", "2026-08-05").unwrap_err(),
        "开始日期格式不正确（应为 YYYY-MM-DD）：x"
    );
    assert_eq!(
        compute_days("2026-08-05", "y").unwrap_err(),
        "结束日期格式不正确（应为 YYYY-MM-DD）：y"
    );
    assert_eq!(
        compute_days("2026-08-05", "2026-08-03").unwrap_err(),
        "结束日期 2026-08-03 早于开始日期 2026-08-05"
    );
}

#[test]
fn leap_year_february() {
    assert_eq!(compute_days("2024-02-28", "2024-03-01").unwrap(), 3);
    assert_eq!(compute_days("2023-02-28", "2023-03-01").unwrap(), 2);
}

#[test]
fn confirmation_texts_name_dates_and_days() {
    let (summary, detail) = daw::agent::submit_leave::leave_confirmation(
        "张三", "研发", "2026-08-03", "2026-08-05", 3, "家里有事",
    );
    assert_eq!(summary, "提交 张三（研发）的请假申请：2026-08-03 → 2026-08-05 共 3 天");
    assert_eq!(
        detail,
        "将提交「张三（研发部门）」的请假单：\n- 日期：2026-08-03 至 2026-08-05（含，共 3 天）\n- 事由：家里有事\n提交后将扣减 3 天年假余额，并生成一条待审批记录。"
    );
}
