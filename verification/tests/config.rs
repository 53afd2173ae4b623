use fastapi_lsp::workspace::safe_join;
use fastapi_lsp::config::{layer_configs, RawConfig};

#[test]
fn safe_join_relative_path_is_accepted() {
    let root = "/workspace";
    assert_eq!(safe_join(root, "app/templates"), Some("/workspace/app/templates".to_string()));
}

#[test]
fn safe_join_absolute_path_is_rejected() {
    let root = "/workspace";
    assert!(safe_join(root, "/etc/passwd").is_none());
    assert!(safe_join(root, "/workspace/templates").is_none()); // absolute even if under root
}

#[test]
fn safe_join_parent_component_is_rejected() {
    let root = "/workspace";
    assert!(safe_join(root, "../secrets/.env").is_none());
    assert!(safe_join(root, "app/../../etc/shadow").is_none());
    assert!(safe_join(root, "subdir/../../../other").is_none());
}

#[test]
fn initialization_options_force_process_env_off() {
    let mut py = RawConfig::default();
    py.process_env = true;
    let r = layer_configs(Some(py), None, None, Some(RawConfig::default()), Some(false));
    assert!(!r.process_env);
    let mut py2 = RawConfig::default();
    py2.process_env = true;
    let r2 = layer_configs(Some(py2), None, None, Some(RawConfig::default()), None);
    assert!(r2.process_env);
}
