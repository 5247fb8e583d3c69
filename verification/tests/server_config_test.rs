use std::collections::HashMap;

use m_desk_new::server_config::{ServerConfig, ServerConfigs};

fn server(id: &str, is_default: bool) -> ServerConfig {
    ServerConfig {
        id: id.to_string(),
        name: id.to_uppercase(),
        command: "docker".to_string(),
        args: vec![],
        env: HashMap::new(),
        description: None,
        is_default,
    }
}

fn defaults(c: &ServerConfigs) -> Vec<String> {
    c.servers.iter().filter(|s| s.is_default).map(|s| s.id.clone()).collect()
}

#[test]
fn the_default_filesystem_server() {
    let c = ServerConfig::default_filesystem();
    assert_eq!(c.id, "filesystem");
    assert_eq!(c.name, "Filesystem MCP");
    assert_eq!(c.args.len(), 10);
    assert!(c.is_default);
    let all = ServerConfigs::initialize_default();
    assert_eq!(all.servers, vec![c]);
    assert!(ServerConfigs::default().servers.is_empty());
}

#[test]
fn new_configurations_get_fresh_ids() {
    let a = ServerConfig::new("n".to_string(), "c".to_string(), vec![], HashMap::new(), None, false);
    let b = ServerConfig::new("n".to_string(), "c".to_string(), vec![], HashMap::new(), None, false);
    assert_eq!(a.id.len(), 36);
    assert_ne!(a.id, b.id);
}

#[test]
fn at_most_one_server_is_the_default() {
    let mut c = ServerConfigs::default();
    c.add_server(server("a", true));
    c.add_server(server("b", true));
    assert_eq!(defaults(&c), vec!["b"]);
    c.update_server(server("a", true));
    assert_eq!(defaults(&c), vec!["a"]);
    assert_eq!(c.get_default().unwrap().id, "a");
    // the default cannot be removed
    assert!(!c.remove_server("a"));
    assert!(c.remove_server("b"));
    assert!(!c.remove_server("b"));
    assert_eq!(c.servers.len(), 1);
}

#[test]
fn a_default_is_ensured() {
    let mut c = ServerConfigs::default();
    c.ensure_default_exists();
    assert!(c.servers.is_empty());
    let mut c = ServerConfigs::default();
    c.add_server(server("x", false));
    c.add_server(server("y", false));
    c.ensure_default_exists();
    assert_eq!(defaults(&c), vec!["x"]);
    c.ensure_default_exists();
    assert_eq!(defaults(&c), vec!["x"]);
}

#[test]
fn updating_an_unknown_server_only_clears_defaults() {
    let mut c = ServerConfigs::default();
    c.add_server(server("a", false));
    // the first server becomes the default
    assert_eq!(defaults(&c), vec!["a"]);
    let before = c.clone();
    c.update_server(server("zzz", false));
    assert_eq!(c, before);
    c.update_server(server("zzz", true));
    assert_eq!(c.servers.len(), 1);
    assert!(defaults(&c).is_empty());
    let mut changed = server("a", false);
    changed.command = "podman".to_string();
    c.update_server(changed);
    assert_eq!(c.get_by_id("a").unwrap().command, "podman");
}
