use m_desk_new::chat_session::{system_prompt, ChatSession};
use m_desk_new::json::{object_insert, JsonValue};
use m_desk_new::message::{MessageRole, ToolExecutionStatus, ToolInteraction};
use m_desk_new::tool::Tool;
use m_desk_new::validation_pipeline::ValidationPipeline;

fn obj(pairs: Vec<(&str, JsonValue)>) -> JsonValue {
    let mut entries = Vec::new();
    for (k, v) in pairs {
        object_insert(&mut entries, k.to_string(), v);
    }
    JsonValue::Object(entries)
}

fn s(t: &str) -> JsonValue {
    JsonValue::String(t.to_string())
}

fn reader() -> Tool {
    Tool::new(
        "read_file".to_string(),
        "Reads a file".to_string(),
        obj(vec![
            ("type", s("object")),
            ("properties", obj(vec![("path", obj(vec![("type", s("string"))]))])),
            ("required", JsonValue::Array(vec![s("path")])),
        ]),
    )
}

fn roles(chat: &ChatSession) -> Vec<MessageRole> {
    chat.messages().iter().map(|m| m.role).collect()
}

#[test]
fn sending_adds_the_trimmed_input_and_a_waiting_message() {
    let mut chat = ChatSession::new();
    assert!(chat.begin_send("   \n").is_none());
    assert!(chat.messages().is_empty());

    let (history, thinking) = chat.begin_send("  hello there ").unwrap();
    assert_eq!(thinking, 1);
    assert!(chat.is_sending());
    assert_eq!(roles(&chat), vec![MessageRole::User, MessageRole::Thinking]);
    assert_eq!(chat.messages()[0].content, "hello there");
    assert_eq!(history.len(), 1);
    assert_eq!(history[0].role, "user");
    assert_eq!(history[0].content, "hello there");

    // a second request waits for the first
    assert!(chat.begin_send("again").is_none());
    assert_eq!(chat.messages().len(), 2);
}

#[test]
fn a_reply_naming_an_available_tool_carries_the_suggestion() {
    let mut chat = ChatSession::new();
    let (_, thinking) = chat.begin_send("show me /tmp").unwrap();
    let tools = vec![reader()];
    let remembered = chat.reply_received(
        thinking,
        "I'll use the read_file tool with {\"path\": \"/tmp\"}".to_string(),
        &tools,
    );
    let (name, args) = remembered.unwrap();
    assert_eq!(name, "read_file");
    assert_eq!(args, obj(vec![("path", s("/tmp"))]));
    assert!(!chat.is_sending());
    assert_eq!(roles(&chat), vec![MessageRole::User, MessageRole::Assistant]);
    match &chat.messages()[1].tool_interaction {
        Some(ToolInteraction::Suggestion { tool_name, suggested_args, message_idx }) => {
            assert_eq!(tool_name, "read_file");
            assert_eq!(suggested_args, &obj(vec![("path", s("/tmp"))]));
            assert_eq!(*message_idx, 1);
        }
        other => panic!("expected a suggestion, got {:?}", other),
    }
}

#[test]
fn a_reply_naming_a_missing_tool_gets_a_note() {
    let mut chat = ChatSession::new();
    let (_, thinking) = chat.begin_send("search").unwrap();
    let none = chat.reply_received(thinking, "Let me try the web_search tool".to_string(), &[]);
    assert!(none.is_none());
    assert_eq!(roles(&chat), vec![MessageRole::User, MessageRole::Assistant, MessageRole::System]);
    assert_eq!(
        chat.messages()[2].content,
        "The 'web_search' tool was mentioned, but it's not available in the current MCP server."
    );
}

#[test]
fn a_plain_reply_replaces_the_waiting_message() {
    let mut chat = ChatSession::new();
    let (_, thinking) = chat.begin_send("hi").unwrap();
    chat.reply_plain(thinking, "Hello!".to_string());
    assert_eq!(roles(&chat), vec![MessageRole::User, MessageRole::Assistant]);
    assert_eq!(chat.messages()[1].content, "Hello!");
    assert!(!chat.is_sending());
    let tools = vec![reader()];
    let (_, thinking) = chat.begin_send("and now?").unwrap();
    chat.reply_received(thinking, "Nothing to run here.".to_string(), &tools);
    assert_eq!(chat.messages().len(), 4);
    assert!(chat.messages()[3].tool_interaction.is_none());
}

#[test]
fn a_failed_request_leaves_an_error_in_place_of_the_waiting_message() {
    let mut chat = ChatSession::new();
    let (_, thinking) = chat.begin_send("hi").unwrap();
    chat.reply_failed(thinking, "timeout");
    assert_eq!(roles(&chat), vec![MessageRole::User, MessageRole::System]);
    assert_eq!(chat.messages()[1].content, "Error: timeout");
    assert!(!chat.is_sending());
}

#[test]
fn a_chosen_tool_is_offered_with_its_parameters() {
    let mut chat = ChatSession::new();
    let (_, thinking) = chat.begin_send("read it").unwrap();
    chat.reply_with_suggestion(thinking, "read_file".to_string(), obj(vec![("path", s("a"))]));
    assert_eq!(
        chat.messages()[1].content,
        "I'll help you with that using the `read_file` tool.\n\nParameters prepared based on your request.\n\nWould you like me to proceed?"
    );
    assert!(matches!(chat.messages()[1].tool_interaction, Some(ToolInteraction::Suggestion { message_idx: 1, .. })));
}

#[test]
fn remembered_selections_are_checked_before_they_are_offered() {
    let pipeline = ValidationPipeline::new();
    let tools = vec![reader()];

    let mut chat = ChatSession::new();
    let (_, thinking) = chat.begin_send("read a").unwrap();
    assert!(chat.reply_from_cache(thinking, "read_file", obj(vec![("path", s("a"))]), &tools, &pipeline));
    assert_eq!(roles(&chat), vec![MessageRole::User, MessageRole::Assistant]);
    assert!(!chat.is_sending());

    let (_, thinking) = chat.begin_send("read b").unwrap();
    assert!(chat.reply_from_cache(thinking, "read_file", obj(vec![("path", s(" b "))]), &tools, &pipeline));
    assert_eq!(
        chat.messages()[3].content,
        "I'll help you with that using the `read_file` tool.\n\nNote: I've made minor adjustments to the parameters: Sanitized string value\n\nWould you like me to proceed?"
    );

    let (_, thinking) = chat.begin_send("read c").unwrap();
    let before = chat.messages().len();
    assert!(!chat.reply_from_cache(thinking, "read_file", obj(vec![("path", JsonValue::Bool(true))]), &tools, &pipeline));
    assert!(!chat.reply_from_cache(thinking, "unknown", obj(vec![]), &tools, &pipeline));
    assert_eq!(chat.messages().len(), before);
    assert!(chat.is_sending());
}

#[test]
fn running_a_tool_records_its_progress() {
    let pipeline = ValidationPipeline::new();
    let tools = vec![reader()];
    let mut chat = ChatSession::new();

    assert!(chat.start_tool("nope", obj(vec![]), &tools, &pipeline).is_none());
    assert_eq!(chat.messages()[0].content, "Tool 'nope' not found in available tools.");

    assert!(chat.start_tool("read_file", obj(vec![("path", JsonValue::Bool(true))]), &tools, &pipeline).is_none());
    assert!(chat.messages()[1].content.starts_with("Tool validation failed for 'read_file':\n"), "{}", chat.messages()[1].content);

    let (idx, args) = chat.start_tool("read_file", obj(vec![("path", s("/a"))]), &tools, &pipeline).unwrap();
    assert_eq!(idx, 2);
    assert_eq!(args, obj(vec![("path", s("/a"))]));
    assert_eq!(chat.messages()[2].content, "Executing tool: read_file");
    assert!(matches!(
        chat.messages()[2].tool_interaction,
        Some(ToolInteraction::Execution { status: ToolExecutionStatus::Running, message_idx: 2, .. })
    ));

    chat.tool_finished(idx, "read_file", args.deep_copy(), Ok("contents".to_string()));
    assert_eq!(chat.messages()[2].content, "Tool execution completed: read_file");
    match &chat.messages()[2].tool_interaction {
        Some(ToolInteraction::Execution { status, result, .. }) => {
            assert_eq!(status, &ToolExecutionStatus::Completed);
            assert_eq!(result.as_deref(), Some("contents"));
        }
        other => panic!("expected an execution, got {:?}", other),
    }
    assert_eq!(chat.messages()[3].content, "Tool 'read_file' returned result:\n\ncontents");

    let (idx, args) = chat.start_tool("read_file", obj(vec![("path", s("/b"))]), &tools, &pipeline).unwrap();
    chat.tool_finished(idx, "read_file", args, Err("denied".to_string()));
    assert_eq!(chat.messages()[idx].content, "Tool execution failed: read_file");
    assert!(matches!(
        &chat.messages()[idx].tool_interaction,
        Some(ToolInteraction::Execution { status: ToolExecutionStatus::Failed(e), result: None, .. }) if e == "denied"
    ));

    let len = chat.messages().len();
    chat.tool_finished(99, "read_file", obj(vec![]), Ok("late".to_string()));
    assert_eq!(chat.messages().len(), len);
}

#[test]
fn turning_down_a_suggestion_removes_it() {
    let mut chat = ChatSession::new();
    let (_, thinking) = chat.begin_send("read").unwrap();
    chat.reply_with_suggestion(thinking, "read_file".to_string(), obj(vec![]));
    chat.cancel_tool(1);
    assert!(chat.messages()[1].tool_interaction.is_none());
    assert_eq!(chat.messages()[2].content, "Tool usage rejected: read_file");
    // nothing left to turn down
    chat.cancel_tool(1);
    chat.cancel_tool(40);
    assert_eq!(chat.messages().len(), 3);
}

#[test]
fn database_tools_are_recognized() {
    let t = |name: &str| Tool::new(name.to_string(), "d".to_string(), obj(vec![]));
    assert!(!m_desk_new::chat_session::has_database_tools(&[t("read_file"), t("web_search")]));
    assert!(m_desk_new::chat_session::has_database_tools(&[t("read_file"), t("list_tables")]));
    assert!(m_desk_new::chat_session::has_database_tools(&[t("run_sqlite")]));
    assert!(m_desk_new::chat_session::has_database_tools(&[t("execute_query")]));
    assert!(!m_desk_new::chat_session::has_database_tools(&[t("SQL_upper")]));
    assert!(!m_desk_new::chat_session::has_database_tools(&[]));
}

#[test]
fn the_system_prompt_without_tools_forbids_suggestions() {
    assert_eq!(
        system_prompt(&[], "0.7"),
        "You are a helpful AI assistant with access to special tools. IMPORTANT: No MCP tools are currently available. Please do not suggest using any tools as they cannot be executed."
    );
}

#[test]
fn the_system_prompt_lists_each_tool_with_its_schema() {
    let tool = Tool::new(
        "list_tables".to_string(),
        "Lists the tables".to_string(),
        obj(vec![("type", s("object"))]),
    );
    let prompt = system_prompt(&[tool], "0.5");
    let expected = [
        "You are a helpful AI assistant with access to special tools. ",
        "IMPORTANT: You only have access to the following tools from the MCP server:\n\n",
        "- list_tables: Lists the tables\n",
        "  Parameters: {\"type\":\"object\"}\n\n",
        "\nWhen you need to use one of these tools, simply mention the tool by name.\n",
        "For example, you can say something like:\n",
        "\"I'll use the list_tables tool to help with that\"\n",
        "\"Let me try the list_tables tool\"\n",
        "\nIMPORTANT: I notice you have SQLite database tools available. You can use these to work with tables and data in a SQLite database. For example:\n",
        "- Use list_tables to see what tables are available\n",
        "- Use execute_query with a SQL query to run commands like SELECT, INSERT, UPDATE, etc.\n",
        "- Use create_table to create new database tables\n",
        "You must only mention tools from the above list. Other standard AI tools like 'Web Search', 'Calculator', etc. are NOT available.\n",
        "The system will detect your desire to use the tool, and the user will approve or deny the tool usage.\n",
        "If a tool would be helpful, always suggest using one of the AVAILABLE tools listed above to help the user.",
        "\nIMPORTANT: The user's confidence threshold is set to 0.5. Only suggest tools when you are confident they will help address the user's query directly.",
    ]
    .concat();
    assert_eq!(prompt, expected);
}
