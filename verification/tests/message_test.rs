use m_desk_new::message::{chat_history, paragraphs, Message, MessageLayout, MessageRole, ToolExecutionStatus, ToolInteraction};
use m_desk_new::json::JsonValue;
use m_desk_new::tool::Tool;

#[test]
fn messages_start_without_interaction_and_with_a_fresh_id() {
    let a = Message::new(MessageRole::User, "hi".to_string());
    let b = Message::new(MessageRole::User, "hi".to_string());
    assert_eq!(a.id.len(), 36);
    assert_ne!(a.id, b.id);
    assert!(a.tool_interaction.is_none());
    let c = a.with_tool_interaction(ToolInteraction::Suggestion {
        tool_name: "t".to_string(),
        suggested_args: JsonValue::Null,
        message_idx: 3,
    });
    assert_eq!(c.content, "hi");
    assert!(matches!(c.tool_interaction, Some(ToolInteraction::Suggestion { message_idx: 3, .. })));
}

#[test]
fn roles_map_to_api_roles() {
    let cases = [
        (MessageRole::User, "user"),
        (MessageRole::Assistant, "assistant"),
        (MessageRole::System, "system"),
        (MessageRole::Thinking, "assistant"),
        (MessageRole::Tool, "system"),
    ];
    for (role, api) in cases {
        let m = Message::new(role, "text".to_string());
        let c = m.to_openrouter_format();
        assert_eq!(c.role, api);
        assert_eq!(c.content, "text");
    }
}

#[test]
fn the_history_leaves_out_thinking_and_tool_messages() {
    let ms = vec![
        Message::new(MessageRole::User, "q".to_string()),
        Message::new(MessageRole::Thinking, "".to_string()),
        Message::new(MessageRole::Tool, "Executing tool: x".to_string()),
        Message::new(MessageRole::System, "note".to_string()),
        Message::new(MessageRole::Assistant, "a".to_string()),
    ];
    let h = chat_history(&ms);
    let pairs: Vec<(String, String)> = h.into_iter().map(|c| (c.role, c.content)).collect();
    assert_eq!(
        pairs,
        vec![
            ("user".to_string(), "q".to_string()),
            ("system".to_string(), "note".to_string()),
            ("assistant".to_string(), "a".to_string()),
        ]
    );
}

#[test]
fn labels_and_classes_of_roles() {
    assert_eq!(MessageRole::User.sender_label(), "You");
    assert_eq!(MessageRole::Thinking.sender_label(), "Thinking...");
    assert_eq!(MessageRole::Tool.role_class(), "tool-message");
    assert_eq!(MessageRole::Assistant.role_class(), "assistant-message");
}

#[test]
fn paragraphs_are_split_at_blank_lines() {
    assert_eq!(paragraphs("one\n\ntwo\nstill two\n\n\n\nthree"), vec!["one", "two\nstill two", "three"]);
    assert_eq!(paragraphs("a\n\n\nb"), vec!["a", "\nb"]);
    assert!(paragraphs("").is_empty());
    assert!(paragraphs("  \n\n \t ").is_empty());
    assert_eq!(paragraphs("x"), vec!["x"]);
    for text in ["p\n\nq\n\n\n", "\n\n\n\nz", "no breaks here", "é\n\nü"] {
        let expected: Vec<String> =
            text.split("\n\n").filter(|p| !p.trim().is_empty()).map(|p| p.to_string()).collect();
        assert_eq!(paragraphs(text), expected);
    }
}

#[test]
fn layouts_follow_role_and_content() {
    let m = |role, text: &str| Message::new(role, text.to_string());
    assert_eq!(m(MessageRole::Thinking, "").layout(), MessageLayout::Typing);
    assert_eq!(m(MessageRole::System, "Alternative tools you might want").layout(), MessageLayout::Alternatives);
    assert_eq!(m(MessageRole::System, "Input validation had issues but was recovered").layout(), MessageLayout::Recovery);
    assert_eq!(m(MessageRole::System, "plain note").layout(), MessageLayout::Paragraphs);
    assert_eq!(m(MessageRole::User, "Alternative tools recovered").layout(), MessageLayout::Paragraphs);
}

#[test]
fn execution_headings() {
    assert_eq!(ToolExecutionStatus::Running.heading("ls"), "Running ls...");
    assert_eq!(ToolExecutionStatus::Completed.heading("ls"), "Completed ls");
    assert_eq!(ToolExecutionStatus::Failed("boom".to_string()).heading("ls"), "Failed: boom");
}

#[test]
fn message_ids_are_random_uuids() {
    for _ in 0..20 {
        let id: Vec<char> = Message::new(MessageRole::User, String::new()).id.chars().collect();
        assert_eq!(id.len(), 36);
        for (i, c) in id.iter().enumerate() {
            if [8, 13, 18, 23].contains(&i) {
                assert_eq!(*c, '-');
            } else {
                assert!(c.is_ascii_hexdigit() && !c.is_ascii_uppercase());
            }
        }
        assert_eq!(id[14], '4');
        assert!(['8', '9', 'a', 'b'].contains(&id[19]));
    }
}

#[test]
fn a_suggestion_is_shown_only_for_an_available_tool() {
    let tools = vec![
        Tool::new("read_file".to_string(), "Reads a file".to_string(), JsonValue::Null),
        Tool::new("list_dir".to_string(), "Lists a directory".to_string(), JsonValue::Null),
    ];
    let suggestion = |name: &str| {
        Message::new(MessageRole::Assistant, "Let me help".to_string()).with_tool_interaction(ToolInteraction::Suggestion {
            tool_name: name.to_string(),
            suggested_args: JsonValue::Null,
            message_idx: 0,
        })
    };
    assert_eq!(suggestion("list_dir").shown_suggestion(&tools), Some(&tools[1]));
    assert_eq!(suggestion("web_search").shown_suggestion(&tools), None);
    let plain = Message::new(MessageRole::Assistant, "Hello".to_string());
    assert_eq!(plain.shown_suggestion(&tools), None);
}
