use cc_switch::dsh_patch::{get_servers, parse_patch_content, upsert_server};
use cc_switch::json::{parse_json, to_json_text, JsonValue};
use cc_switch::mcp_live::{
    dsh_entry_enabled, dsh_entry_to_unified_spec, get_mcp_servers, import_from_dsh,
    import_from_workbuddy, import_from_zcode, read_config, remove_mcp_server,
    remove_server_from_dsh, remove_server_from_workbuddy, remove_server_from_zcode, set_mcp_server,
    sync_single_server_to_dsh, sync_single_server_to_workbuddy, sync_single_server_to_zcode,
    unified_spec_to_dsh_entry, workbuddy_get_mcp_servers, workbuddy_remove_mcp_server,
    workbuddy_set_mcp_server, ImportCandidate, LiveConfigKind, McpError, McpServerTable,
};
use cc_switch::yaml::YamlValue;

fn j(text: &str) -> JsonValue {
    parse_json(text).unwrap()
}

fn s<'a>(v: &'a JsonValue, k: &str) -> Option<&'a str> {
    v.get(k).and_then(|x| x.as_str())
}

fn path<'a>(v: &'a JsonValue, keys: &[&str]) -> Option<&'a JsonValue> {
    let mut cur = v;
    for k in keys {
        cur = cur.get(k)?;
    }
    Some(cur)
}

fn lookup<'a>(servers: &'a [(String, JsonValue)], id: &str) -> Option<&'a JsonValue> {
    servers.iter().find(|(n, _)| n == id).map(|(_, v)| v)
}

fn candidate(id: &str, spec: JsonValue, enabled: bool) -> ImportCandidate {
    ImportCandidate { id: id.to_string(), spec, valid: true, enabled }
}

#[test]
fn stdio_spec_converts_to_dsh_entry() {
    let entry = unified_spec_to_dsh_entry(
        "echo",
        &j(r#"{"type": "stdio", "command": "npx", "args": ["-y", "echo"], "env": {"K": "V"}}"#),
    )
    .expect("stdio supported");
    assert_eq!(s(&entry, "name"), Some("echo"));
    assert_eq!(s(&entry, "transport"), Some("stdio"));
    assert_eq!(s(&entry, "command"), Some("npx"));
    match entry.get("args") {
        Some(JsonValue::Array(items)) => assert_eq!(items[0].as_str(), Some("-y")),
        _ => panic!("args must be an array"),
    }
    assert_eq!(path(&entry, &["env", "K"]).and_then(|v| v.as_str()), Some("V"));
}

#[test]
fn omitted_type_treated_as_stdio() {
    let entry = unified_spec_to_dsh_entry("e", &j(r#"{"command": "node"}"#)).expect("stdio");
    assert_eq!(s(&entry, "transport"), Some("stdio"));
}

#[test]
fn http_spec_maps_to_streamable_http() {
    let entry = unified_spec_to_dsh_entry(
        "remote",
        &j(r#"{"type": "http", "url": "https://example.com/mcp", "headers": {"A": "B"}}"#),
    )
    .expect("http supported");
    assert_eq!(s(&entry, "transport"), Some("streamable-http"));
    assert_eq!(s(&entry, "url"), Some("https://example.com/mcp"));
    assert_eq!(path(&entry, &["headers", "A"]).and_then(|v| v.as_str()), Some("B"));
    assert_eq!(
        to_json_text(&entry),
        r#"{"name":"remote","transport":"streamable-http","url":"https://example.com/mcp","headers":{"A":"B"}}"#
    );
}

#[test]
fn sse_spec_is_skipped() {
    let result = unified_spec_to_dsh_entry("old", &j(r#"{"type": "sse", "url": "https://x/sse"}"#));
    assert!(result.is_none(), "sse must be skipped, not error");
}

#[test]
fn dsh_entry_converts_back_to_unified_spec() {
    let spec = dsh_entry_to_unified_spec(&j(r#"{"name": "echo", "transport": "stdio", "command": "npx"}"#))
        .expect("convert");
    assert_eq!(s(&spec, "type"), Some("stdio"));
    assert_eq!(s(&spec, "command"), Some("npx"));
    assert!(spec.get("name").is_none());

    let spec = dsh_entry_to_unified_spec(&j(r#"{"name": "r", "transport": "streamable-http", "url": "https://x/mcp"}"#))
        .expect("convert");
    assert_eq!(s(&spec, "type"), Some("http"));
    assert_eq!(s(&spec, "url"), Some("https://x/mcp"));
}

#[test]
fn dsh_entry_with_unknown_transport_is_error() {
    match dsh_entry_to_unified_spec(&j(r#"{"name": "x", "transport": "websocket"}"#)) {
        Err(McpError::Validation(m)) => assert!(m.contains("websocket")),
        _ => panic!("unknown transport must be a validation error"),
    }
}

#[test]
fn dsh_enabled_flag_defaults_to_true() {
    assert!(dsh_entry_enabled(&j(r#"{"name": "a"}"#)));
    assert!(dsh_entry_enabled(&j(r#"{"enabled": "no"}"#)));
    assert!(!dsh_entry_enabled(&j(r#"{"enabled": false}"#)));
}

#[test]
fn import_respects_dsh_enabled_flag() {
    let mut entries: Vec<YamlValue> = Vec::new();
    upsert_server(&mut entries, "on", &j(r#"{"name": "on", "transport": "stdio", "command": "a"}"#)).unwrap();
    upsert_server(
        &mut entries,
        "off",
        &j(r#"{"name": "off", "transport": "stdio", "command": "b", "enabled": false}"#),
    )
    .unwrap();
    let candidates: Vec<ImportCandidate> = get_servers(&entries)
        .into_iter()
        .map(|(id, entry)| {
            let enabled = dsh_entry_enabled(&entry);
            let spec = dsh_entry_to_unified_spec(&entry).unwrap();
            candidate(&id, spec, enabled)
        })
        .collect();
    let mut table = McpServerTable::new();
    let changed = import_from_dsh(&mut table, &candidates);
    assert_eq!(changed, 2, "both entries imported");
    assert!(table.apps_of("on").unwrap().dsh);
    assert!(!table.apps_of("off").unwrap().dsh);
    assert!(!table.apps_of("on").unwrap().anthropic_cli);
}

#[test]
fn import_skips_invalid_and_enables_known_servers_once() {
    let mut table = McpServerTable::new();
    let first = vec![
        candidate("a", j(r#"{"command": "x"}"#), true),
        ImportCandidate { id: "bad".to_string(), spec: j("{}"), valid: false, enabled: true },
    ];
    assert_eq!(import_from_zcode(&mut table, &first), 1);
    assert!(table.apps_of("bad").is_none());
    let again = vec![candidate("a", j(r#"{"command": "other"}"#), true)];
    assert_eq!(import_from_zcode(&mut table, &again), 0);
    assert_eq!(import_from_workbuddy(&mut table, &again), 1);
    let apps = table.apps_of("a").unwrap();
    assert!(apps.zcode && apps.workbuddy && !apps.dsh);
}

#[test]
fn sync_and_remove_write_live_file() {
    let mut entries: Vec<YamlValue> = Vec::new();
    sync_single_server_to_dsh(&mut entries, "echo", &j(r#"{"type": "stdio", "command": "npx"}"#)).expect("sync");
    let servers = get_servers(&entries);
    assert!(servers.iter().any(|(n, e)| n == "echo" && s(e, "transport") == Some("stdio")));
    assert!(remove_server_from_dsh(&mut entries, "echo"));
    assert!(get_servers(&entries).iter().all(|(n, _)| n != "echo"));
}

#[test]
fn sync_sse_is_noop_not_error() {
    let mut entries: Vec<YamlValue> = Vec::new();
    sync_single_server_to_dsh(&mut entries, "old", &j(r#"{"type": "sse", "url": "https://x/sse"}"#))
        .expect("skip without error");
    assert!(get_servers(&entries).is_empty());
    let file = parse_patch_content("", "p").unwrap();
    assert!(file.entries.is_empty());
}

#[test]
fn import_from_zcode_imports_servers_and_enables_zcode_app() {
    let mut config = read_config(LiveConfigKind::Zcode, None, "/z/cli/config.json").unwrap();
    sync_single_server_to_zcode(&mut config, "echo", &j(r#"{"type": "stdio", "command": "npx", "args": ["-y", "echo"]}"#));
    let candidates: Vec<ImportCandidate> = get_mcp_servers(&config)
        .into_iter()
        .map(|(id, spec)| candidate(&id, spec, true))
        .collect();
    let mut table = McpServerTable::new();
    assert_eq!(import_from_zcode(&mut table, &candidates), 1);
    let apps = table.apps_of("echo").expect("imported server");
    assert!(apps.zcode);
    assert!(!apps.anthropic_cli);
}

#[test]
fn import_from_workbuddy_imports_servers_and_enables_workbuddy_app() {
    let mut config = read_config(LiveConfigKind::WorkBuddy, None, "/w/mcp.json").unwrap();
    sync_single_server_to_workbuddy(&mut config, "echo", &j(r#"{"type": "stdio", "command": "npx"}"#));
    let candidates: Vec<ImportCandidate> = workbuddy_get_mcp_servers(&config)
        .into_iter()
        .map(|(id, spec)| candidate(&id, spec, true))
        .collect();
    let mut table = McpServerTable::new();
    assert_eq!(import_from_workbuddy(&mut table, &candidates), 1);
    let apps = table.apps_of("echo").expect("imported server");
    assert!(apps.workbuddy);
    assert!(!apps.anthropic_cli);
}

#[test]
fn workbuddy_config_get_mcp_servers_returns_empty_when_missing() {
    let config = read_config(LiveConfigKind::WorkBuddy, None, "/w/mcp.json").unwrap();
    assert!(workbuddy_get_mcp_servers(&config).is_empty());
}

#[test]
fn set_mcp_server_writes_top_level_mcp_servers() {
    let mut config = read_config(LiveConfigKind::WorkBuddy, None, "/w/mcp.json").unwrap();
    workbuddy_set_mcp_server(&mut config, "echo", j(r#"{"type": "stdio", "command": "npx"}"#));
    let servers = workbuddy_get_mcp_servers(&config);
    assert_eq!(lookup(&servers, "echo").and_then(|v| s(v, "command")), Some("npx"));
}

#[test]
fn set_mcp_server_preserves_unrelated_fields_and_normalizes_section() {
    let mut config = read_config(
        LiveConfigKind::WorkBuddy,
        Some(r#"{"someUserField": true, "mcpServers": []}"#),
        "/w/mcp.json",
    )
    .unwrap();
    workbuddy_set_mcp_server(&mut config, "echo", j(r#"{"command": "npx"}"#));
    assert_eq!(config.get("someUserField").and_then(|v| v.as_bool()), Some(true));
    assert_eq!(path(&config, &["mcpServers", "echo", "command"]).and_then(|v| v.as_str()), Some("npx"));
}

#[test]
fn remove_mcp_server_preserves_others() {
    let mut config = read_config(LiveConfigKind::WorkBuddy, None, "/w/mcp.json").unwrap();
    workbuddy_set_mcp_server(&mut config, "keep", j(r#"{"command": "keep-me"}"#));
    workbuddy_set_mcp_server(&mut config, "drop", j(r#"{"command": "drop-me"}"#));
    workbuddy_remove_mcp_server(&mut config, "drop");
    let servers = workbuddy_get_mcp_servers(&config);
    assert_eq!(lookup(&servers, "keep").and_then(|v| s(v, "command")), Some("keep-me"));
    assert!(lookup(&servers, "drop").is_none());
    remove_server_from_workbuddy(&mut config, "keep");
    assert!(workbuddy_get_mcp_servers(&config).is_empty());
}

#[test]
fn non_object_root_is_rejected() {
    match read_config(LiveConfigKind::WorkBuddy, Some("[1, 2]"), "/w/mcp.json") {
        Err(McpError::Config(m)) => assert!(m.ends_with("/w/mcp.json")),
        _ => panic!("array root must be rejected"),
    }
    match read_config(LiveConfigKind::Zcode, Some("{not json"), "/z/c.json") {
        Err(McpError::Config(m)) => assert!(m.starts_with("Failed to parse ZCode config: /z/c.json: ")),
        _ => panic!("invalid JSON must be rejected"),
    }
}

#[test]
fn set_mcp_server_writes_servers_section() {
    let mut config = read_config(LiveConfigKind::Zcode, None, "/z/cli/config.json").unwrap();
    set_mcp_server(&mut config, "echo", j(r#"{"command": "npx"}"#));
    assert_eq!(path(&config, &["mcp", "servers", "echo", "command"]).and_then(|v| v.as_str()), Some("npx"));
}

#[test]
fn set_mcp_server_normalizes_non_object_sections() {
    let mut config = read_config(
        LiveConfigKind::Zcode,
        Some(r#"{"hooks": {"enabled": true}, "mcp": []}"#),
        "/z/cli/config.json",
    )
    .unwrap();
    set_mcp_server(&mut config, "echo", j(r#"{"command": "npx"}"#));
    assert_eq!(path(&config, &["mcp", "servers", "echo", "command"]).and_then(|v| v.as_str()), Some("npx"));
    assert_eq!(path(&config, &["hooks", "enabled"]).and_then(|v| v.as_bool()), Some(true));
}

#[test]
fn remove_mcp_server_preserves_others_and_unrelated_fields() {
    let mut config = read_config(LiveConfigKind::Zcode, Some(r#"{"hooks": {"enabled": true}}"#), "/z/c.json").unwrap();
    set_mcp_server(&mut config, "keep", j(r#"{"command": "keep-me"}"#));
    set_mcp_server(&mut config, "drop", j(r#"{"command": "drop-me"}"#));
    remove_mcp_server(&mut config, "drop");
    assert_eq!(path(&config, &["mcp", "servers", "keep", "command"]).and_then(|v| v.as_str()), Some("keep-me"));
    assert!(path(&config, &["mcp", "servers", "drop"]).is_none());
    assert_eq!(path(&config, &["hooks", "enabled"]).and_then(|v| v.as_bool()), Some(true));
    remove_server_from_zcode(&mut config, "keep");
    assert!(get_mcp_servers(&config).is_empty());
}

#[test]
fn zcode_config_get_mcp_servers_returns_empty_when_missing() {
    let config = read_config(LiveConfigKind::Zcode, None, "/z/cli/config.json").unwrap();
    assert!(get_mcp_servers(&config).is_empty());
}

#[test]
fn dsh_conversion_round_trips_the_definition() {
    let spec = j(r#"{"command": "npx", "args": ["-y"], "env": {"K": "V"}, "extra": 1}"#);
    let entry = unified_spec_to_dsh_entry("x", &spec).unwrap();
    let back = dsh_entry_to_unified_spec(&entry).unwrap();
    assert_eq!(to_json_text(&back), r#"{"type":"stdio","command":"npx","args":["-y"],"env":{"K":"V"}}"#);
    let http = j(r#"{"type": "http", "url": "u", "headers": null}"#);
    let back = dsh_entry_to_unified_spec(&unified_spec_to_dsh_entry("h", &http).unwrap()).unwrap();
    assert_eq!(to_json_text(&back), r#"{"type":"http","url":"u"}"#);
}

#[test]
fn importing_twice_changes_nothing() {
    let cs = vec![
        candidate("a", j(r#"{"command": "x"}"#), false),
        candidate("a", j(r#"{"command": "y"}"#), true),
        candidate("b", j(r#"{"command": "z"}"#), false),
    ];
    let mut table = McpServerTable::new();
    assert_eq!(import_from_dsh(&mut table, &cs), 3);
    assert_eq!(import_from_dsh(&mut table, &cs), 0);
    assert!(table.apps_of("a").unwrap().dsh);
    assert!(!table.apps_of("b").unwrap().dsh);
}

#[test]
fn parsed_duplicate_server_key_is_removed_completely() {
    let mut config = parse_json(r#"{"mcp":{"servers":{"a":{"command":"x"},"a":{"command":"y"},"b":{}}}}"#).unwrap();
    let servers = get_mcp_servers(&config);
    assert_eq!(servers.iter().filter(|(k, _)| k == "a").count(), 1);
    remove_mcp_server(&mut config, "a");
    let servers = get_mcp_servers(&config);
    assert!(servers.iter().all(|(k, _)| k != "a"));
    assert!(servers.iter().any(|(k, _)| k == "b"));
}
