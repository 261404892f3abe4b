use daw::agent::config::{ModelItem, ModelProvider};
use daw::agent::runner::SegmentText;
use daw::agent::turns::{
    anthropic_max_tokens, api_format, current_time_line, effort_for, history_turns, llm_prompt,
    max_tokens_limit, next_step, runtime_context, thinking_budget, ApiFormat, RunOutcome,
    Scenario, StoredMessage, StreamStep, Turn, MAX_RETRIES,
};

fn provider(models: Vec<ModelItem>) -> ModelProvider {
    ModelProvider {
        id: "p".to_string(),
        name: "P".to_string(),
        endpoint: "https://example.invalid".to_string(),
        api_key: String::new(),
        api_format: "openai".to_string(),
        models,
        enabled: true,
    }
}

fn model(id: &str, max_tokens: Option<usize>) -> ModelItem {
    ModelItem { id: id.to_string(), context_window: 128000, max_tokens }
}

#[test]
fn effort_follows_priority() {
    assert_eq!(effort_for("最高"), "high");
    assert_eq!(effort_for("最快"), "low");
    assert_eq!(effort_for("均衡"), "medium");
    assert_eq!(effort_for(""), "medium");
}

#[test]
fn thinking_budget_by_effort() {
    assert_eq!(thinking_budget("high"), 16000);
    assert_eq!(thinking_budget("medium"), 8000);
    assert_eq!(thinking_budget("low"), 0);
}

#[test]
fn anthropic_limit_adds_answer_room() {
    assert_eq!(anthropic_max_tokens(16000), 20096);
    assert_eq!(anthropic_max_tokens(8000), 12096);
    assert_eq!(anthropic_max_tokens(0), 4096);
}

#[test]
fn max_tokens_of_first_matching_model() {
    let p = provider(vec![
        model("a", Some(1000)),
        model("b", None),
        model("c", Some(32000)),
        model("c", Some(7)),
    ]);
    assert_eq!(max_tokens_limit(&p, "a"), 1000);
    assert_eq!(max_tokens_limit(&p, "b"), 4096);
    assert_eq!(max_tokens_limit(&p, "c"), 32000);
    assert_eq!(max_tokens_limit(&p, "missing"), 4096);
    assert_eq!(max_tokens_limit(&provider(vec![]), "a"), 4096);
}

#[test]
fn api_format_ignores_case() {
    assert_eq!(api_format("OpenAI"), Ok(ApiFormat::OpenAi));
    assert_eq!(api_format("responses"), Ok(ApiFormat::Responses));
    assert_eq!(api_format("ANTHROPIC"), Ok(ApiFormat::Anthropic));
}

#[test]
fn api_format_rejects_unknown() {
    assert_eq!(api_format("gemini"), Err("不支持的 API 格式: gemini".to_string()));
}

#[test]
fn history_keeps_user_and_assistant_text() {
    let msgs = vec![
        StoredMessage { role: "user".to_string(), content: Some("你好".to_string()), segments: None },
        StoredMessage { role: "system".to_string(), content: Some("ignored".to_string()), segments: None },
        StoredMessage { role: "assistant".to_string(), content: Some(String::new()), segments: None },
        StoredMessage {
            role: "assistant".to_string(),
            content: None,
            segments: Some(vec![
                SegmentText::Text("见图".to_string()),
                SegmentText::Chart { id: "c1".to_string(), title: Some("销量".to_string()) },
            ]),
        },
    ];
    let turns = history_turns(&msgs);
    assert_eq!(turns.len(), 2);
    assert_eq!(turns[0], Turn::User("你好".to_string()));
    match &turns[1] {
        Turn::Assistant(t) => assert!(t.starts_with("见图")),
        other => panic!("unexpected turn {:?}", other),
    }
}

#[test]
fn time_line_names_date_and_weekday() {
    let line = current_time_line("2025-03-01", "星期六");
    assert_eq!(
        line,
        "# 当前时间\n现在是 2025-03-01（星期六）。用户提到「今天」「本周」「下周一」「本月」等相对时间时，以此为准。"
    );
}

#[test]
fn context_adds_outline_for_data_analysis_only() {
    assert_eq!(runtime_context(Scenario::General, "T", "O"), "T");
    assert_eq!(runtime_context(Scenario::DataAnalysis, "T", "O"), "T\n\nO");
    assert_eq!(runtime_context(Scenario::DataAnalysis, "T", ""), "T");
}

#[test]
fn prompt_wraps_context() {
    assert_eq!(llm_prompt("ctx", "问题"), "<runtime_context>\nctx\n</runtime_context>\n\n问题");
}

#[test]
fn retries_double_the_wait() {
    let out = RunOutcome::RateLimited("429".to_string());
    let delays: Vec<u64> = (1..=MAX_RETRIES)
        .map(|a| match next_step(&out, a) {
            StreamStep::Retry { attempt, max_attempts, delay_secs } => {
                assert_eq!(attempt, a);
                assert_eq!(max_attempts, 4);
                delay_secs
            }
            other => panic!("expected a retry, got {:?}", other),
        })
        .collect();
    assert_eq!(delays, vec![5, 10, 20, 40]);
}

#[test]
fn done_finishes() {
    assert_eq!(next_step(&RunOutcome::Done, 1), StreamStep::Finish);
    assert_eq!(next_step(&RunOutcome::Done, 9), StreamStep::Finish);
}

#[test]
fn rate_limit_fails_after_last_retry() {
    let step = next_step(&RunOutcome::RateLimited("status 429".to_string()), 5);
    assert_eq!(
        step,
        StreamStep::Fail(
            "已自动重试 4 次仍被速率限制（429），请稍候降低请求频率或更换模型后重试。\nstatus 429".to_string()
        )
    );
}

#[test]
fn transient_fails_with_diagnosis() {
    let step = next_step(&RunOutcome::Transient("Connection reset by peer".to_string()), 5);
    assert_eq!(
        step,
        StreamStep::Fail(
            "网络或服务端连接中断：TCP 连接被重置。常见原因：网络切换、防火墙/代理干预、服务端过载。已自动重试 4 次仍失败，请稍后重发或更换模型。\nConnection reset by peer"
                .to_string()
        )
    );
    let plain = next_step(&RunOutcome::Transient("odd".to_string()), 5);
    assert_eq!(
        plain,
        StreamStep::Fail("网络或服务端连接中断。已自动重试 4 次仍失败，请稍后重发或更换模型。\nodd".to_string())
    );
}
