use m_desk_new::json::{object_insert, JsonValue};
use m_desk_new::tool::Tool;
use m_desk_new::tool_manager::{is_safe_auto_executable_tool, CallToolResult, ToolContent, ToolManager};

fn obj(pairs: Vec<(&str, JsonValue)>) -> JsonValue {
    let mut entries = Vec::new();
    for (k, v) in pairs {
        object_insert(&mut entries, k.to_string(), v);
    }
    JsonValue::Object(entries)
}

fn tool(name: &str) -> Tool {
    Tool::new(name.to_string(), "d".to_string(), obj(vec![]))
}

#[test]
fn mentions_of_available_tools_are_detected_with_their_arguments() {
    let tools = vec![tool("list_directory"), tool("read_file")];
    let found = ToolManager::detect_tool_suggestion(
        "The weather tool is not here; I'll use the read_file tool: {\"path\": \"/a\"} and {\"x\": 1}",
        &tools,
    );
    assert_eq!(found, Some(("read_file".to_string(), obj(vec![("path", JsonValue::String("/a".to_string()))]))));
}

#[test]
fn arguments_that_are_not_json_become_an_empty_object() {
    let tools = vec![tool("read_file")];
    let found = ToolManager::detect_tool_suggestion("use the read_file tool with {path: nope}", &tools);
    assert_eq!(found, Some(("read_file".to_string(), obj(vec![]))));
    let found = ToolManager::detect_tool_suggestion("use the read_file tool", &tools);
    assert_eq!(found, Some(("read_file".to_string(), obj(vec![]))));
}

#[test]
fn without_available_tools_any_mention_counts() {
    let found = ToolManager::detect_tool_suggestion("Try the magic tool", &[]);
    assert_eq!(found, Some(("magic".to_string(), obj(vec![]))));
}

#[test]
fn unknown_tools_are_not_suggested() {
    let tools = vec![tool("read_file")];
    assert_eq!(ToolManager::detect_tool_suggestion("the weather tool", &tools), None);
    assert_eq!(ToolManager::detect_tool_suggestion("I need to use the weather tool", &tools), None);
    assert_eq!(ToolManager::detect_tool_suggestion("no mention at all", &tools), None);
}

#[test]
fn tools_are_found_by_exact_name() {
    let tools = vec![tool("a"), tool("b"), tool("b")];
    assert!(std::ptr::eq(ToolManager::find_tool_by_name("b", &tools).unwrap(), &tools[1]));
    assert!(ToolManager::find_tool_by_name("B", &tools).is_none());
}

#[test]
fn only_read_only_tools_run_without_confirmation() {
    for name in ["list_allowed_directories", "list_directory", "get_file_info", "search_files", "directory_tree", "read_multiple_files"] {
        assert!(is_safe_auto_executable_tool(name), "{}", name);
    }
    for name in ["write_file", "move_file", "read_file", ""] {
        assert!(!is_safe_auto_executable_tool(name), "{}", name);
    }
}

#[test]
fn tool_results_are_rendered_line_by_line() {
    let result = CallToolResult {
        content: vec![
            ToolContent::Text("hello".to_string()),
            ToolContent::Image { data: "0123456789abcdefghijKLMNOP".to_string(), mime_type: "image/png".to_string() },
            ToolContent::Image { data: "short".to_string(), mime_type: "image/gif".to_string() },
            ToolContent::Resource("file contents".to_string()),
        ],
        is_error: None,
    };
    assert_eq!(
        ToolManager::format_tool_result(&result),
        "hello\n[Image: 0123456789abcdefghij... (image/png)]\n[Image: short (image/gif)]\nfile contents\n"
    );
    let empty = CallToolResult { content: vec![], is_error: Some(false) };
    assert_eq!(ToolManager::format_tool_result(&empty), "");
}
