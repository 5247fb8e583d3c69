use std::collections::HashMap;

use m_desk_new::server_config::{ServerConfig, ServerConfigs};
use m_desk_new::server_form::ServerForm;

#[test]
fn a_new_form_starts_with_docker() {
    let form = ServerForm::new();
    assert_eq!(form.command, "docker");
    assert!(form.id.is_empty() && form.args.is_empty() && form.env_keys.is_empty());
    assert!(!form.is_default);
}

#[test]
fn the_form_makes_the_configuration() {
    let mut form = ServerForm::new();
    form.id = "fs".to_string();
    form.name = "Files".to_string();
    form.args = "  run -i\t--rm \n mcp/filesystem ".to_string();
    form.add_env_row();
    form.env_keys[0] = "HOME".to_string();
    form.env_values[0] = "/home/a".to_string();
    form.add_env_row();
    form.env_values[1] = "ignored: no name".to_string();
    form.add_env_row();
    form.env_keys[2] = "HOME".to_string();
    form.env_values[2] = "/home/b".to_string();
    let c = form.to_config();
    assert_eq!(c.id, "fs");
    assert_eq!(c.args, vec!["run", "-i", "--rm", "mcp/filesystem"]);
    assert_eq!(c.description, None);
    let mut env = HashMap::new();
    env.insert("HOME".to_string(), "/home/b".to_string());
    assert_eq!(c.env, env);

    form.description = "desc".to_string();
    form.remove_env_row(0);
    form.remove_env_row(9);
    assert_eq!(form.env_keys.len(), 2);
    assert_eq!(form.to_config().description, Some("desc".to_string()));
}

#[test]
fn editing_shows_the_configuration() {
    let server = ServerConfig {
        id: "x".to_string(),
        name: "X".to_string(),
        command: "node".to_string(),
        args: vec!["a".to_string(), "b c".to_string()],
        env: HashMap::new(),
        description: None,
        is_default: true,
    };
    let form = ServerForm::for_server(&server, vec![("K".to_string(), "V".to_string())]);
    assert_eq!(form.args, "a b c");
    assert_eq!(form.description, "");
    assert!(form.is_default);
    assert_eq!(form.env_keys, vec!["K"]);
    assert_eq!(form.env_values, vec!["V"]);
}

#[test]
fn the_server_list_saves_and_deletes() {
    let mut configs = ServerConfigs::default();
    let mut form = ServerForm::new();
    form.id = "a".to_string();
    configs.save_from_dialog(form.to_config(), false);
    form.id = "b".to_string();
    configs.save_from_dialog(form.to_config(), false);
    assert!(configs.servers[0].is_default);
    form.id = "a".to_string();
    form.name = "renamed".to_string();
    configs.save_from_dialog(form.to_config(), true);
    assert_eq!(configs.get_by_id("a").unwrap().name, "renamed");
    assert_eq!(configs.servers.len(), 2);
    // the edited server was saved as not default: nothing is default now,
    // and deleting the other one makes the remaining server the default
    assert!(configs.get_default().is_none());
    assert!(configs.delete_server("b"));
    assert_eq!(configs.servers.len(), 1);
    assert!(configs.servers[0].is_default);
    assert!(!configs.delete_server("a"));
}
