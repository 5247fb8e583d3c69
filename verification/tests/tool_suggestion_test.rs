use m_desk_new::message::ToolExecutionStatus;

#[test]
fn test_basic_tool_existence() {
    let running = ToolExecutionStatus::Running;
    let completed = ToolExecutionStatus::Completed;
    let failed = ToolExecutionStatus::Failed("error".to_string());

    assert!(matches!(running, ToolExecutionStatus::Running));
    assert!(matches!(completed, ToolExecutionStatus::Completed));
    if let ToolExecutionStatus::Failed(error) = failed {
        assert_eq!(error, "error");
    } else {
        panic!("Expected Failed variant");
    }
}
