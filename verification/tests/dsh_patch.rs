use cc_switch::dsh_patch::{
    combine_profile_writes, contains_yaml_tag_extensions, dump_patch_yaml, extract_header_comments,
    get_servers, load_profile, merge_profile_reads, migrate_legacy_servers, needs_legacy_migration,
    parse_patch_content, quote_dsh_style, remove_server, render_patch_file, strip_yaml_comment,
    upsert_server, DshPatchError, PatchFile,
};
use cc_switch::json::{parse_json, JsonValue};
use cc_switch::yaml::YamlValue;

fn j(text: &str) -> JsonValue {
    parse_json(text).unwrap()
}

fn s<'a>(v: &'a JsonValue, k: &str) -> Option<&'a str> {
    v.get(k).and_then(|x| x.as_str())
}

fn load(content: &str) -> PatchFile {
    parse_patch_content(content, "/home/u/.dsh/profiles/web/cordis.patch.yml").expect("parse")
}

fn save(file: &PatchFile) -> String {
    render_patch_file(file).expect("render")
}

const WEB: &str = "/p/profiles/web/cordis.patch.yml";
const DESKTOP: &str = "/p/profiles/desktop/cordis.patch.yml";

/// The listing of both profiles from their file contents (`None`: no file).
fn list_profiles(web: Option<&str>, desktop: Option<&str>) -> Result<Vec<(String, JsonValue)>, DshPatchError> {
    merge_profile_reads(vec![
        load_profile(web, WEB).map(|f| get_servers(&f.entries)),
        load_profile(desktop, DESKTOP).map(|f| get_servers(&f.entries)),
    ])
}

/// An upsert into both profiles: the combined result and, per profile, the
/// text written (`None`: the file is left as it is).
fn upsert_profiles(
    contents: [Option<&str>; 2],
    name: &str,
    config: &JsonValue,
) -> (Result<(), DshPatchError>, Vec<Option<String>>) {
    let mut written = Vec::new();
    let mut results = Vec::new();
    for (content, path) in contents.into_iter().zip([WEB, DESKTOP]) {
        let outcome = load_profile(content, path).and_then(|mut f| {
            upsert_server(&mut f.entries, name, config)?;
            render_patch_file(&f)
        });
        match outcome {
            Ok(text) => {
                written.push(Some(text));
                results.push(Ok(()));
            }
            Err(e) => {
                written.push(None);
                results.push(Err(e));
            }
        }
    }
    (combine_profile_writes(results), written)
}

fn yaml_equal(a: &str, b: &str) -> bool {
    let x: serde_yaml::Value = serde_yaml::from_str(a).unwrap();
    let y: serde_yaml::Value = serde_yaml::from_str(b).unwrap();
    x == y
}

#[test]
fn get_servers_empty_when_file_missing() {
    let file = load("");
    assert!(file.entries.is_empty());
    assert!(get_servers(&file.entries).is_empty());
}

#[test]
fn upsert_roundtrip_preserves_foreign_entries_and_header() {
    let mut file = load(
        "# Your patch layer for this dsh profile\n# second header line\n- id: harness-pet\n  disabled: true\n- insert:\n    - id: balance\n      name: '@deepseek-ai/dsh-balance'\n",
    );
    upsert_server(
        &mut file.entries,
        "echo",
        &j(r#"{"transport": "stdio", "command": "npx", "args": ["-y", "echo"]}"#),
    )
    .expect("upsert");

    let servers = get_servers(&file.entries);
    assert_eq!(servers.len(), 1);
    let (name, config) = &servers[0];
    assert_eq!(name, "echo");
    assert_eq!(s(config, "transport"), Some("stdio"));
    assert_eq!(s(config, "command"), Some("npx"));
    assert!(config.get("serverName").is_none());

    let raw = save(&file);
    assert!(raw.starts_with("# Your patch layer for this dsh profile\n# second header line\n"));
    assert!(raw.contains("harness-pet"));
    assert!(raw.contains("\"@deepseek-ai/dsh-balance\""));
    assert!(raw.contains("\"@deepseek-ai/dsh-mcp-client\""));
    assert!(raw.contains("serverName: echo"));
    assert!(raw.contains("\n    - id: "));
    assert!(!raw.contains("\n  - "));

    let mut file = load(&raw);
    upsert_server(&mut file.entries, "echo", &j(r#"{"transport": "stdio", "command": "updated"}"#))
        .expect("upsert again");
    let servers = get_servers(&file.entries);
    assert_eq!(servers.len(), 1);
    assert_eq!(s(&servers[0].1, "command"), Some("updated"));
}

#[test]
fn remove_server_preserves_others_and_drops_empty_insert() {
    let mut file = load("");
    upsert_server(&mut file.entries, "keep", &j(r#"{"transport": "stdio", "command": "k"}"#)).unwrap();
    upsert_server(
        &mut file.entries,
        "drop",
        &j(r#"{"transport": "streamable-http", "url": "http://x/mcp"}"#),
    )
    .unwrap();
    assert!(remove_server(&mut file.entries, "drop"));

    let servers = get_servers(&file.entries);
    assert_eq!(servers.len(), 1);
    assert_eq!(servers[0].0, "keep");
    let raw = save(&file);
    assert!(!raw.contains("drop"));
    assert!(raw.contains("keep"));
    assert!(!remove_server(&mut file.entries, "drop"));
}

#[test]
fn removing_the_last_server_drops_the_insert_entry() {
    let mut file = load("- id: harness-pet\n  disabled: true\n");
    upsert_server(&mut file.entries, "only", &j(r#"{"transport": "stdio", "command": "o"}"#)).unwrap();
    assert_eq!(file.entries.len(), 2);
    assert!(remove_server(&mut file.entries, "only"));
    assert_eq!(file.entries.len(), 1);
    assert_eq!(save(&file), "- id: harness-pet\n  disabled: true\n");
}

#[test]
fn root_not_sequence_is_error() {
    match parse_patch_content("mapping: true\n", "/p/cordis.patch.yml") {
        Err(DshPatchError::Config(m)) => {
            assert!(m.contains("/p/cordis.patch.yml"));
            assert!(m.contains("mapping"));
        }
        Ok(_) => panic!("mapping root must be rejected"),
    }
    assert!(list_profiles(Some("mapping: true\n"), None).is_err(), "mapping root must be rejected");
    let (r, written) = upsert_profiles([Some("mapping: true\n"), None], "x", &j(r#"{"transport": "stdio"}"#));
    assert!(r.is_err(), "must not overwrite user file with rebuilt root");
    assert!(written[0].is_none(), "the rejected file is not rewritten");
    assert!(written[1].is_some(), "the other profile is still written");
}

#[test]
fn unparsable_yaml_is_error() {
    let r = parse_patch_content("- [unclosed\n", "/p.yml");
    match r {
        Err(DshPatchError::Config(m)) => assert!(m.starts_with("Failed to parse DSH cordis.patch.yml: /p.yml: ")),
        Ok(_) => panic!("must fail"),
    }
}

#[test]
fn js_tag_expressions_are_rejected() {
    let content = "- insert:\n    - id: mcp-x\n      name: '@deepseek-ai/dsh-mcp-client'\n      config:\n        serverName: x\n        env:\n          TOKEN: !!js process.env.TOKEN\n";
    assert!(contains_yaml_tag_extensions(content));
    assert!(parse_patch_content(content, "/p.yml").is_err());
    assert!(list_profiles(Some(content), None).is_err(), "!!js must be rejected, not parsed");
    let (r, written) = upsert_profiles([Some(content), None], "x", &j(r#"{"transport": "stdio"}"#));
    assert!(r.is_err());
    assert!(written[0].is_none(), "rejected file must not be rewritten");
}

#[test]
fn js_tag_in_comments_is_allowed() {
    let content = "# Your patch layer for this dsh profile, applied after every bundle layer:\n# a top-level YAML array of loader patch entries (id-targeted config\n# overrides, disables, and insert lists; `!!js` expressions allowed).\n- id: harness-pet\n  disabled: true # inline note about !!js\n";
    assert!(!contains_yaml_tag_extensions(content));
    let mut file = load(content);
    assert!(get_servers(&file.entries).is_empty());
    upsert_server(&mut file.entries, "echo", &j(r#"{"transport": "stdio", "command": "npx"}"#)).unwrap();
    let raw = save(&file);
    assert!(raw.contains("`!!js` expressions allowed"));
    assert!(raw.contains("harness-pet"));
    assert!(raw.contains("serverName: echo"));
}

#[test]
fn comment_stripping_cuts_at_the_first_space_hash() {
    assert_eq!(strip_yaml_comment("a: b # c"), "a: b");
    assert_eq!(strip_yaml_comment("a: 'x # y'"), "a: 'x");
    assert_eq!(strip_yaml_comment("   # whole line"), "");
    assert_eq!(strip_yaml_comment("a: b#c"), "a: b#c");
    assert_eq!(extract_header_comments("# one\n\n# two\n- id: x\n# later\n"), "# one\n\n# two\n");
    assert_eq!(extract_header_comments("- id: x\n"), "");
}

#[test]
fn dump_matches_dsh_yaml_style() {
    let flow = "[{insert: [{id: mcp-x, name: \"@deepseek-ai/dsh-mcp-client\", \
         config: {serverName: x, transport: stdio, command: npx, \
         args: ['@playwright/mcp@latest', '600', 'a b'], timeout: 600, \
         args2: [], url: 'https://x/y', flag: true}}]}, \
         {id: harness-pet, disabled: true}]";
    let file = load(flow);
    let out = dump_patch_yaml(&file.entries).expect("dump");
    assert!(out.contains("\n    - id: mcp-x\n"));
    assert!(out.contains("\n      name: \"@deepseek-ai/dsh-mcp-client\"\n"));
    assert!(out.contains("\n        serverName: x\n"));
    assert!(out.contains("\n          - \"@playwright/mcp@latest\"\n"));
    assert!(out.contains("\n          - \"600\"\n"));
    assert!(out.contains("\n          - \"a b\"\n"));
    assert!(out.contains("timeout: 600\n"));
    assert!(out.contains("flag: true\n"));
    assert!(out.contains("url: https://x/y\n"));
    assert!(out.contains("args2: []\n"));
    assert!(out.ends_with("- id: harness-pet\n  disabled: true\n"));
    assert!(!out.contains("\n  - "));
    assert!(yaml_equal(flow, &out), "dump output must be semantically identical");
    let again = dump_patch_yaml(&load(&out).entries).unwrap();
    assert_eq!(again, out);
    let empty: Vec<YamlValue> = Vec::new();
    assert_eq!(dump_patch_yaml(&empty).unwrap(), "[]\n");
}

#[test]
fn scalars_are_quoted_like_dsh() {
    assert_eq!(quote_dsh_style("plain"), "plain");
    assert_eq!(quote_dsh_style("600"), "\"600\"");
    assert_eq!(quote_dsh_style("1.5"), "\"1.5\"");
    assert_eq!(quote_dsh_style("true"), "\"true\"");
    assert_eq!(quote_dsh_style("a b"), "\"a b\"");
    assert_eq!(quote_dsh_style("@scope/pkg"), "\"@scope/pkg\"");
    assert_eq!(quote_dsh_style("https://x/y"), "https://x/y");
    assert_eq!(quote_dsh_style(""), "\"\"");
    assert_eq!(quote_dsh_style("say \"hi\""), "\"say \\\"hi\\\"\"");
}

#[test]
fn upsert_keeps_dsh_style_on_real_world_file() {
    let mut file = load(
        "# Your patch layer for this dsh profile:\n# overrides, disables, and insert lists; `!!js` expressions allowed).\n\
         - id: harness-pet\n  disabled: true\n\
         - insert:\n    - id: mcp-windbg\n      name: \"@deepseek-ai/dsh-mcp-client\"\n      config:\n        serverName: mcp_windbg\n        transport: stdio\n        command: python\n        args:\n          - -m\n          - mcp_windbg\n          - --timeout\n          - \"600\"\n        env:\n          _NT_SYMBOL_PATH: SRV*V:\\dbg-symbols*https://msdl.microsoft.com/download/symbols\n",
    );
    upsert_server(
        &mut file.entries,
        "echo",
        &j(r#"{"transport": "stdio", "command": "npx", "args": ["-y", "echo"]}"#),
    )
    .expect("upsert");
    let raw = save(&file);
    assert!(!raw.contains("\n  - "));
    assert!(raw.contains("\n    - id: mcp-windbg\n"));
    assert!(raw.contains("\n          - mcp_windbg\n"));
    assert!(raw.contains("\n          - \"600\"\n"));
    assert!(raw.contains("_NT_SYMBOL_PATH: SRV*V:\\dbg-symbols"));
    assert!(raw.contains("\n    - id: mcp-echo\n"));
    assert!(raw.contains("serverName: echo"));
    let servers = get_servers(&load(&raw).entries);
    let names: Vec<&str> = servers.iter().map(|(n, _)| n.as_str()).collect();
    assert_eq!(names, vec!["mcp_windbg", "echo"]);
    match servers[0].1.get("args") {
        Some(JsonValue::Array(items)) => assert_eq!(items[3].as_str(), Some("600")),
        _ => panic!("args must be an array"),
    }
}

#[test]
fn legacy_mcp_json_is_migrated_once_with_backup() {
    let legacy = j(r#"{"servers": [
        {"name": "echo", "transport": "stdio", "command": "npx", "args": ["-y"]},
        {"name": "remote", "transport": "streamable-http", "url": "http://x/mcp"},
        {"name": "off", "transport": "stdio", "command": "x", "enabled": false},
        {"transport": "stdio", "command": "nameless"}
    ]}"#);
    let mut file = load("");
    assert!(needs_legacy_migration(&file.entries));
    assert_eq!(migrate_legacy_servers(&mut file.entries, &legacy), Some(2));
    let servers = get_servers(&file.entries);
    let names: Vec<&str> = servers.iter().map(|(n, _)| n.as_str()).collect();
    assert_eq!(names, vec!["echo", "remote"]);
    let echo = &servers[0].1;
    assert_eq!(s(echo, "transport"), Some("stdio"));
    assert_eq!(s(echo, "command"), Some("npx"));
    match echo.get("args") {
        Some(JsonValue::Array(items)) => assert_eq!(items[0].as_str(), Some("-y")),
        _ => panic!("args must be an array"),
    }
    assert!(!needs_legacy_migration(&file.entries));
    upsert_server(&mut file.entries, "extra", &j(r#"{"transport": "stdio", "command": "e"}"#)).unwrap();
    assert_eq!(get_servers(&file.entries).len(), 3);
}

#[test]
fn legacy_file_without_server_list_migrates_nothing() {
    let mut file = load("");
    assert_eq!(migrate_legacy_servers(&mut file.entries, &j(r#"{"other": 1}"#)), None);
    assert!(file.entries.is_empty());
}

#[test]
fn upsert_replaces_in_place_keeping_custom_plugin_id() {
    let mut file = load(
        "- insert:\n    - id: my-custom-id\n      name: '@deepseek-ai/dsh-mcp-client'\n      config:\n        serverName: echo\n        transport: stdio\n        command: old\n",
    );
    upsert_server(&mut file.entries, "echo", &j(r#"{"transport": "stdio", "command": "new"}"#)).unwrap();
    let raw = save(&file);
    assert!(raw.contains("my-custom-id"));
    assert!(raw.contains("command: new"));
    assert!(!raw.contains("mcp-echo"));
    assert_eq!(get_servers(&file.entries).len(), 1);
}
