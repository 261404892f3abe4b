use daw::agent::config::{first_enabled_model, provider_for_model, sanitize_endpoint, ModelItem, ModelProvider};

fn provider(id: &str, enabled: bool, models: &[&str]) -> ModelProvider {
    ModelProvider {
        id: id.to_string(),
        name: id.to_string(),
        endpoint: String::new(),
        api_key: String::new(),
        api_format: "openai".to_string(),
        models: models
            .iter()
            .map(|m| ModelItem { id: m.to_string(), context_window: 8192, max_tokens: None })
            .collect(),
        enabled,
    }
}

#[test]
fn endpoints_lose_api_paths() {
    assert_eq!(sanitize_endpoint(" https://x.com/v1/chat/completions/ "), "https://x.com/v1");
    assert_eq!(sanitize_endpoint("https://x.com/v1/messages"), "https://x.com");
    assert_eq!(sanitize_endpoint("https://x.com/api/messages//"), "https://x.com/api");
    assert_eq!(sanitize_endpoint("https://x.com///"), "https://x.com");
    assert_eq!(sanitize_endpoint("https://x.com/v1"), "https://x.com/v1");
}

#[test]
fn provider_choice_prefers_requested_id() {
    let ps = vec![provider("a", true, &["m"]), provider("b", true, &["m"]), provider("c", false, &["m"])];
    assert_eq!(provider_for_model(&ps, "m", Some("b")), Ok(1));
    assert_eq!(provider_for_model(&ps, "m", Some("c")), Ok(0));
    assert_eq!(provider_for_model(&ps, "m", None), Ok(0));
    assert_eq!(
        provider_for_model(&ps, "zz", None),
        Err("未找到包含模型「zz」且已启用的服务商，请检查设置。".to_string())
    );
}

#[test]
fn first_enabled_model_skips_empty_and_disabled() {
    let ps = vec![provider("a", false, &["x"]), provider("b", true, &[]), provider("c", true, &["y", "z"])];
    assert_eq!(first_enabled_model(&ps), Some("y".to_string()));
    assert_eq!(first_enabled_model(&[]), None);
}
