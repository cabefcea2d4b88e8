use cc_switch::paths::{
    api_log_dir, expand_home, get_default_home, get_dsh_mcp_config_path, get_home,
    get_mcp_config_path, get_workbuddy_dir, get_zcode_cli_config_path, get_zcode_db_path,
    get_zcode_dir, join_components, legacy_mcp_json_path,
};
use std::path::PathBuf;

fn home() -> Vec<String> {
    vec!["/home".to_string(), "user".to_string()]
}

fn to_path(components: &[String]) -> PathBuf {
    components.iter().collect()
}

#[test]
fn default_home_is_dot_dsh_under_home_dir() {
    assert_eq!(
        to_path(&get_default_home(None, &home())),
        to_path(&home()).join(".dsh")
    );
}

#[test]
fn expand_home_handles_tilde_forms() {
    let home_dir = to_path(&home());
    assert_eq!(to_path(&expand_home("~", &home())), home_dir);
    assert_eq!(to_path(&expand_home("~/.custom", &home())), home_dir.join(".custom"));
    assert_eq!(
        to_path(&expand_home("~\\.custom", &home())),
        home_dir.join(".custom"),
        "Windows-style separators expand too"
    );
    assert_eq!(to_path(&expand_home("/abs/path", &home())), PathBuf::from("/abs/path"));
}

#[test]
fn dsh_home_env_is_trimmed_and_expanded() {
    let home_dir = to_path(&home());
    assert_eq!(to_path(&get_default_home(Some("  ~/dsh2 "), &home())), home_dir.join("dsh2"));
    assert_eq!(to_path(&get_default_home(Some("   "), &home())), home_dir.join(".dsh"));
    assert_eq!(to_path(&get_default_home(Some("/opt/dsh"), &home())), PathBuf::from("/opt/dsh"));
    let custom = vec!["/custom".to_string()];
    assert_eq!(to_path(&get_home(Some(&custom), Some("/opt/dsh"), &home())), PathBuf::from("/custom"));
    assert_eq!(to_path(&get_home(None, None, &home())), home_dir.join(".dsh"));
}

#[test]
fn mcp_path_points_to_profile_patch_yml() {
    let dsh_home = get_default_home(None, &home());
    let path = to_path(&get_dsh_mcp_config_path(&dsh_home));
    assert_eq!(path.file_name().and_then(|n| n.to_str()), Some("cordis.patch.yml"));
    assert!(path.parent().is_some_and(|p| p.file_name().is_some_and(|n| n == "web")));
    assert!(path
        .parent()
        .and_then(|p| p.parent())
        .is_some_and(|p| p.file_name().is_some_and(|n| n == "profiles")));
    assert_eq!(to_path(&legacy_mcp_json_path(&dsh_home)), to_path(&dsh_home).join("mcp.json"));
}

#[test]
fn get_zcode_dir_defaults_to_home() {
    let dir = get_zcode_dir(None, &home());
    let dir_path = to_path(&dir);
    assert!(dir_path.ends_with(".zcode"));
    assert_eq!(
        to_path(&get_zcode_cli_config_path(&dir)),
        dir_path.join("cli").join("config.json")
    );
    assert_eq!(
        to_path(&get_zcode_db_path(&dir)),
        dir_path.join("cli").join("db").join("db.sqlite")
    );
    let custom = vec!["/z".to_string()];
    assert_eq!(to_path(&get_zcode_dir(Some(&custom), &home())), PathBuf::from("/z"));
}

#[test]
fn workbuddy_and_log_locations() {
    assert_eq!(to_path(&get_workbuddy_dir(&home())), PathBuf::from("/home/user/.workbuddy"));
    assert_eq!(to_path(&get_mcp_config_path(&home())), PathBuf::from("/home/user/.workbuddy/mcp.json"));
    let logs = vec!["/var/log/app".to_string()];
    assert_eq!(to_path(&api_log_dir(&logs)), PathBuf::from("/var/log/app/api_logs"));
    assert_eq!(join_components(&home(), &["a", "b"]).len(), 4);
}
