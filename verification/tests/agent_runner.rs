use daw::agent::runner::{get_message_text, SegmentText};
use daw::agent::runner::{
    classify_rate_limit_error, diagnose_stream_error, is_transient_stream_error,
    is_unknown_tool_call_error, rewrite_chart_markers, RateLimitKind,
};

#[test]
fn transient_429_is_retriable() {
    let msg = "Invalid status code 429 Too Many Requests with message: rate_limit_exceeded";
    assert_eq!(classify_rate_limit_error(msg), RateLimitKind::Retriable);
}

#[test]
fn insufficient_quota_is_unretriable() {
    let msg = "Invalid status code 429 with message: insufficient_quota";
    assert_eq!(classify_rate_limit_error(msg), RateLimitKind::Unretriable);
}

#[test]
fn chinese_quota_exhausted_is_unretriable() {
    let msg = "Invalid status code 429 with message: 额度已用尽，请充值";
    assert_eq!(classify_rate_limit_error(msg), RateLimitKind::Unretriable);
}

#[test]
fn auth_error_is_not_rate_limit() {
    let msg = "Invalid status code 401 Unauthorized with message: Invalid API key";
    assert_eq!(classify_rate_limit_error(msg), RateLimitKind::No);
}

#[test]
fn volcano_gateway_internalerror_is_transient() {
    let msg = "CompletionError: ResponseError: Failed to parse JSON: missing field `type` at line 1 column 175 (Data: {\"request_id\":\"3497554d-655c-4f19-8941-5bd5471982da\",\"code\":\"InternalError\",\"message\":\"peer closed connection without sending complete message body (incomplete chunked read)\"})";
    assert!(is_transient_stream_error(msg));
}

#[test]
fn connection_drop_markers_are_transient() {
    assert!(is_transient_stream_error(
        "reqwest error: error sending request for url: connection reset by peer"
    ));
    assert!(is_transient_stream_error("hyper::Error(IncompleteMessage)"));
    assert!(is_transient_stream_error(
        "Invalid status code 503 Service Unavailable with message: upstream busy"
    ));
    assert!(is_transient_stream_error(
        "Invalid status code 502 Bad Gateway with message: bad gateway"
    ));
}

#[test]
fn quota_and_auth_errors_are_not_transient() {
    assert!(!is_transient_stream_error(
        "Invalid status code 429 with message: insufficient_quota"
    ));
    assert!(!is_transient_stream_error(
        "Invalid status code 401 Unauthorized with message: Invalid API key"
    ));
    assert!(!is_transient_stream_error(
        "Failed to parse JSON: missing field `type` at line 1 column 175"
    ));
}

#[test]
fn diagnose_translates_known_root_causes() {
    let d = diagnose_stream_error(
        "CompletionError: ProviderError: SSE Error: Http client error: error decoding response body",
    );
    assert!(d.unwrap().contains("流式传输中途断开"));
    let d = diagnose_stream_error(
        "CompletionError: ResponseError: Failed to parse JSON: missing field `type` (Data: {\"code\":\"InternalError\",\"message\":\"peer closed connection without sending complete message body (incomplete chunked read)\"})",
    );
    assert!(d.unwrap().contains("流式传输中途断开"));
    let d = diagnose_stream_error("reqwest error: connection reset by peer");
    assert!(d.unwrap().contains("TCP 连接被重置"));
    let d = diagnose_stream_error("Invalid status code 502 Bad Gateway with message: x");
    assert!(d.unwrap().contains("5xx"));
    let d = diagnose_stream_error("operation timed out");
    assert!(d.unwrap().contains("超时"));
    assert_eq!(diagnose_stream_error("Invalid status code 429 with message: insufficient_quota"), None);
    assert_eq!(diagnose_stream_error("Invalid status code 401 Unauthorized"), None);
    assert_eq!(diagnose_stream_error("Failed to parse JSON: missing field `type`"), None);
}

#[test]
fn throttle_wording_without_429_is_retriable() {
    assert_eq!(classify_rate_limit_error("503: Server OVERLOADED, retry later"), RateLimitKind::Retriable);
    assert_eq!(classify_rate_limit_error("BILLING hard limit reached, status code 429"), RateLimitKind::Unretriable);
}

#[test]
fn unknown_tool_call_is_recognised() {
    assert!(is_unknown_tool_call_error("PromptError: UnknownToolCall: model attempted to call unknown or disallowed tool x"));
    assert!(is_unknown_tool_call_error("调用了不存在的工具"));
    assert!(!is_unknown_tool_call_error("unknowntoolcall"));
}

#[test]
fn chart_markers_become_titles() {
    let titles = vec![
        ("c1".to_string(), Some("销量".to_string())),
        ("c2".to_string(), None),
    ];
    assert_eq!(
        rewrite_chart_markers("见 {{chart: c1 }} 与 {{chart:c2}} 及 {{chart:zz}}。", &titles),
        "见 [图表:销量] 与 [图表] 及 [图表]。"
    );
    assert_eq!(rewrite_chart_markers("前 {{chart:c1", &titles), "前 {{chart:c1");
    assert_eq!(rewrite_chart_markers("plain", &titles), "plain");
}

#[test]
fn later_chart_title_wins() {
    let titles = vec![
        ("c".to_string(), Some("old".to_string())),
        ("c".to_string(), Some("new".to_string())),
    ];
    assert_eq!(rewrite_chart_markers("{{chart:c}}", &titles), "[图表:new]");
}

#[test]
fn message_text_from_content_or_segments() {
    assert_eq!(get_message_text(Some("see {{chart:c1}}"), None), "see [图表]");
    let segs = vec![
        SegmentText::Other,
        SegmentText::Text("a {{chart: c1 }}".to_string()),
        SegmentText::Chart { id: "c1".to_string(), title: Some("销量".to_string()) },
        SegmentText::Text(String::new()),
        SegmentText::Text("b".to_string()),
    ];
    assert_eq!(get_message_text(None, Some(&segs)), "a [图表:销量]\n\nb");
    let later = vec![
        SegmentText::Text(String::new()),
        SegmentText::Text("x".to_string()),
        SegmentText::Chart { id: "c".to_string(), title: None },
    ];
    assert_eq!(get_message_text(None, Some(&later)), "x");
    assert_eq!(get_message_text(None, None), "");
}
