use m_desk_new::json::{object_insert, JsonNumber, JsonValue};
use m_desk_new::tool::Tool;
use m_desk_new::tool_selection::parse_tool_selection;

fn obj(pairs: Vec<(&str, JsonValue)>) -> JsonValue {
    let mut entries = Vec::new();
    for (k, v) in pairs {
        object_insert(&mut entries, k.to_string(), v);
    }
    JsonValue::Object(entries)
}

fn tool(name: &str) -> Tool {
    Tool::new(name.to_string(), format!("The {} tool", name), obj(vec![("type", JsonValue::String("object".to_string()))]))
}

#[test]
fn the_ranking_keeps_available_tools_in_order() {
    let tools = vec![tool("file_reader"), tool("web_search")];
    let answer = r#"{
        "selections": [
            {"tool_name": "web_search", "confidence": 0.95, "reasoning": "search", "parameters": {"query": "rust"}},
            {"tool_name": "calculator", "confidence": 0.9, "reasoning": "math", "parameters": {}},
            {"tool_name": "file_reader", "confidence": 1, "reasoning": "read"}
        ],
        "overall_reasoning": "the user wants to search"
    }"#;
    let sel = parse_tool_selection(answer, &tools).unwrap();
    assert_eq!(sel.reasoning, "the user wants to search");
    assert_eq!(sel.selections.len(), 2);
    let first = &sel.selections[0];
    assert_eq!(first.tool, tool("web_search"));
    assert_eq!(first.confidence, Some(JsonNumber::Float("0.95".to_string())));
    assert_eq!(first.specific_reasoning, "search");
    assert_eq!(first.suggested_parameters, obj(vec![("query", JsonValue::String("rust".to_string()))]));
    let second = &sel.selections[1];
    assert_eq!(second.tool.name, "file_reader");
    assert_eq!(second.confidence, Some(JsonNumber::PosInt(1)));
    assert_eq!(second.suggested_parameters, JsonValue::Null);
}

#[test]
fn odd_answers_give_what_can_be_read() {
    let tools = vec![tool("a")];
    assert!(parse_tool_selection("not json at all", &tools).is_none());
    let sel = parse_tool_selection("[1, 2]", &tools).unwrap();
    assert!(sel.selections.is_empty());
    assert_eq!(sel.reasoning, "");
    let sel = parse_tool_selection(r#"{"selections": {"tool_name": "a"}}"#, &tools).unwrap();
    assert!(sel.selections.is_empty());
    let sel = parse_tool_selection(r#"{"selections": [{"tool_name": "a", "confidence": "high", "reasoning": 3}]}"#, &tools).unwrap();
    assert_eq!(sel.selections.len(), 1);
    assert_eq!(sel.selections[0].confidence, None);
    assert_eq!(sel.selections[0].specific_reasoning, "");
}
