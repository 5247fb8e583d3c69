use m_desk_new::json::{object_insert, JsonValue};
use m_desk_new::openrouter::{fallback_models, status_failure, throttle_wait, ApiFailure, ToolSelector};
use m_desk_new::tool::Tool;

fn tool(name: &str, description: &str) -> Tool {
    let mut e = Vec::new();
    object_insert(&mut e, "type".to_string(), JsonValue::String("object".to_string()));
    Tool::new(name.to_string(), description.to_string(), JsonValue::Object(e))
}

#[test]
fn statuses_map_to_failures() {
    assert!(status_failure(200, "200 OK", "").is_none());
    assert!(status_failure(204, "204 No Content", "").is_none());
    assert!(matches!(status_failure(429, "429 Too Many Requests", "slow down"), Some(ApiFailure::RateLimitExceeded)));
    match status_failure(404, "404 Not Found", "no such model") {
        Some(ApiFailure::ApiError(m)) => assert_eq!(m, "HTTP 404 Not Found: no such model"),
        other => panic!("unexpected {:?}", other),
    }
    assert!(matches!(status_failure(302, "302 Found", ""), Some(ApiFailure::ApiError(_))));
}

#[test]
fn requests_are_spaced_by_the_minimum_interval() {
    assert_eq!(throttle_wait(None, 5, 1000), 0);
    assert_eq!(throttle_wait(Some(100), 400, 1000), 700);
    assert_eq!(throttle_wait(Some(100), 1100, 1000), 0);
    assert_eq!(throttle_wait(Some(100), 5000, 1000), 0);
    assert_eq!(throttle_wait(Some(500), 100, 1000), 1000);
    for (last, now) in [(0u64, 0u64), (10, 20), (10, 1009), (10, 1010)] {
        assert!(now + throttle_wait(Some(last), now, 1000) >= last + 1000);
    }
}

#[test]
fn model_lists_that_do_not_deserialize_keep_what_can_be_read() {
    let body = r#"{"data": [{"id": "a/one", "name": "One", "pricing": "odd"}, {"id": 3}, {"id": "b/two", "name": "Two"}]}"#;
    assert_eq!(
        fallback_models(body),
        Some(vec![("a/one".to_string(), "One".to_string()), ("b/two".to_string(), "Two".to_string())])
    );
    assert_eq!(fallback_models(r#"{"data": [{"id": 3}]}"#), None);
    assert_eq!(fallback_models(r#"{"data": {}}"#), None);
    assert_eq!(fallback_models("not json"), None);
}

#[test]
fn keyword_selection_ignores_case() {
    let tools = vec![
        tool("read_file", "Reads a FILE"),
        tool("web_search", "Searches the web"),
        tool("FileWriter", "writes"),
    ];
    let selector = ToolSelector::new();
    let names: Vec<String> = selector.select_tools("file", &tools).into_iter().map(|t| t.name).collect();
    assert_eq!(names, vec!["read_file", "FileWriter"]);
    assert!(selector.select_tools("database", &tools).is_empty());
    assert_eq!(selector.select_tools("", &tools).len(), 3);
}
