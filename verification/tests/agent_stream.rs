use daw::agent::stream::{reasoning_remainder, stream_failure, StreamFailure};
use daw::agent::turns::RunOutcome;

#[test]
fn remainder_after_streamed_prefix() {
    assert_eq!(reasoning_remainder("思考中……完毕", "思考中"), "……完毕");
    assert_eq!(reasoning_remainder("abc", "abc"), "");
    assert_eq!(reasoning_remainder("abc", ""), "abc");
}

#[test]
fn remainder_is_whole_text_when_prefix_differs() {
    assert_eq!(reasoning_remainder("abc", "abx"), "abc");
    assert_eq!(reasoning_remainder("ab", "abc"), "ab");
}

#[test]
fn throttling_before_output_is_retried() {
    let msg = "Invalid status code 429 Too Many Requests";
    assert_eq!(
        stream_failure(msg, false, 0, 1),
        StreamFailure::Retry(RunOutcome::RateLimited(msg.to_string()))
    );
}

#[test]
fn dropped_connection_before_output_is_retried() {
    let msg = "broken pipe";
    assert_eq!(
        stream_failure(msg, false, 0, 2),
        StreamFailure::Retry(RunOutcome::Transient(msg.to_string()))
    );
}

#[test]
fn dropped_connection_mid_stream_is_reported_with_position() {
    let msg = "Connection reset by peer";
    assert_eq!(
        stream_failure(msg, true, 120, 33),
        StreamFailure::Report(
            "Connection reset by peer\n\n【原因】TCP 连接被重置。常见原因：网络切换、防火墙/代理干预、服务端过载。\n【位置】流式输出过程中（已输出约 120 tokens，耗时 33 秒）；已生成的部分内容已保留。\n可稍后重发继续；频繁出现请检查网络/代理，或更换模型端点。"
                .to_string()
        )
    );
}

#[test]
fn unknown_tool_call_is_reported_with_note() {
    let msg = "UnknownToolCall: fetch_weather";
    assert_eq!(
        stream_failure(msg, false, 0, 0),
        StreamFailure::Report(
            "UnknownToolCall: fetch_weather\n\n模型尝试调用了一个不在工具列表中的函数，请求被服务端否决。这类失败通常由模型臆造工具名引起，直接重试或换个模型即可恢复。"
                .to_string()
        )
    );
}

#[test]
fn unrecognised_error_is_reported_as_is() {
    assert_eq!(
        stream_failure("invalid api key", false, 0, 0),
        StreamFailure::Report("invalid api key".to_string())
    );
}
