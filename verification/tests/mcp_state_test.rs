use std::collections::HashMap;

use m_desk_new::mcp_state::{McpState, ServerStatus, StartStage, ToggleAction};
use m_desk_new::server_config::ServerConfig;

fn server(id: &str, is_default: bool) -> ServerConfig {
    ServerConfig {
        id: id.to_string(),
        name: id.to_string(),
        command: "docker".to_string(),
        args: vec![],
        env: HashMap::new(),
        description: None,
        is_default,
    }
}

#[test]
fn toggling_follows_the_status() {
    let mut state = McpState::new();
    assert_eq!(state.toggle_action("fs"), ToggleAction::Start);
    state.begin_start("fs");
    assert_eq!(state.status_of("fs"), Some(ServerStatus::Starting));
    assert_eq!(state.toggle_action("fs"), ToggleAction::Nothing);
    state.start_succeeded("fs");
    assert_eq!(state.status_of("fs"), Some(ServerStatus::Running));
    assert_eq!(state.active_servers(), &["fs".to_string()]);
    assert_eq!(state.toggle_action("fs"), ToggleAction::Stop);
    state.stop("fs");
    assert_eq!(state.status_of("fs"), Some(ServerStatus::Stopped));
    assert!(state.active_servers().is_empty());
    assert_eq!(state.toggle_action("fs"), ToggleAction::Start);
}

#[test]
fn failures_keep_their_reason() {
    let mut state = McpState::new();
    state.begin_start("a");
    state.start_failed("a", StartStage::Transport, "no docker");
    assert_eq!(state.status_of("a"), Some(ServerStatus::Failed("Failed to start: no docker".to_string())));
    state.begin_start("b");
    state.start_failed("b", StartStage::Initialize, "bad handshake");
    assert_eq!(state.status_of("b"), Some(ServerStatus::Failed("Failed to initialize: bad handshake".to_string())));
    assert_eq!(state.toggle_action("a"), ToggleAction::Nothing);
    assert!(state.status_of("c").is_none());
}

#[test]
fn stopping_the_selected_server_clears_the_selection() {
    let mut state = McpState::new();
    state.start_succeeded("a");
    state.start_succeeded("b");
    state.start_succeeded("a");
    assert_eq!(state.active_servers(), &["a".to_string(), "b".to_string()]);
    assert!(state.select(server("a", false)).is_ok());
    state.stop("b");
    assert_eq!(state.selected_server().unwrap().id, "a");
    state.stop("a");
    assert!(state.selected_server().is_none());
}

#[test]
fn shutdown_stops_every_active_server() {
    let mut state = McpState::new();
    state.start_succeeded("a");
    state.start_succeeded("b");
    state.begin_start("c");
    assert!(state.select(server("b", true)).is_ok());
    state.shutdown();
    assert!(state.active_servers().is_empty());
    assert_eq!(state.selected_server().unwrap().id, "b");
    assert_eq!(state.status_of("a"), Some(ServerStatus::Stopped));
    assert_eq!(state.status_of("b"), Some(ServerStatus::Stopped));
    assert_eq!(state.status_of("c"), Some(ServerStatus::Starting));
}

#[test]
fn after_startup_the_default_server_is_chosen() {
    let servers = vec![server("a", false), server("b", true), server("c", false)];
    let mut state = McpState::new();
    assert_eq!(state.startup_selection(&servers), None);
    state.start_succeeded("c");
    assert_eq!(state.startup_selection(&servers), Some(2));
    state.start_succeeded("a");
    assert_eq!(state.startup_selection(&servers), Some(0));
    state.start_succeeded("b");
    assert_eq!(state.startup_selection(&servers), Some(1));
}

#[test]
fn the_default_state_is_empty() {
    let state = McpState::default();
    assert!(state.active_servers().is_empty());
    assert!(state.selected_server().is_none());
    assert!(state.status_of("anything").is_none());
}

#[test]
fn only_running_servers_can_be_picked_while_some_run() {
    let mut state = McpState::new();
    // nothing runs yet: any server may be picked
    assert!(state.select(server("idle", false)).is_ok());
    assert_eq!(state.selected_server().unwrap().id, "idle");
    state.start_succeeded("a");
    let mut other = server("b", false);
    other.name = "Server B".to_string();
    assert_eq!(state.select(other), Err("Server Server B is not running. Start the server first.".to_string()));
    assert_eq!(state.selected_server().unwrap().id, "idle");
    assert!(state.select(server("a", false)).is_ok());
    assert_eq!(state.selected_server().unwrap().id, "a");
}
