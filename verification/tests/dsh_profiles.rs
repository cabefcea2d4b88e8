use cc_switch::dsh_patch::{
    combine_profile_writes, get_servers, is_bare_safe, merge_profile_reads, parse_patch_content,
    plugin_config_to_json, quote_dsh_style, upsert_server, yaml_number_form,
};
use cc_switch::json::{parse_json, JsonValue};
use cc_switch::paths::get_dsh_mcp_config_paths;
use cc_switch::yaml::{has_nonempty_tags, YamlValue};

fn j(text: &str) -> JsonValue {
    parse_json(text).unwrap()
}

fn list(pairs: &[(&str, &str)]) -> Vec<(String, JsonValue)> {
    pairs.iter().map(|(n, c)| (n.to_string(), j(c))).collect()
}

fn names(v: &[(String, JsonValue)]) -> Vec<String> {
    v.iter().map(|(n, _)| n.clone()).collect()
}

#[test]
fn yaml_number_forms_are_quoted() {
    for s in [".inf", ".Inf", "-.INF", "+.inf", ".nan", ".NaN", "0x1A", "0o17", "0b101", "+0x1"] {
        assert!(yaml_number_form(s), "{s}");
        assert!(!is_bare_safe(s), "{s}");
        assert_eq!(quote_dsh_style(s), format!("\"{s}\""));
    }
    assert!(!yaml_number_form("inference"));
    assert!(is_bare_safe("inference"));
    assert!(is_bare_safe("node"));
    assert_eq!(quote_dsh_style("node"), "node");
}

#[test]
fn profile_paths_are_web_then_desktop() {
    let paths = get_dsh_mcp_config_paths(&vec!["/h".to_string(), ".dsh".to_string()]);
    assert_eq!(paths.len(), 2);
    assert_eq!(paths[0], vec!["/h", ".dsh", "profiles", "web", "cordis.patch.yml"]);
    assert_eq!(paths[1], vec!["/h", ".dsh", "profiles", "desktop", "cordis.patch.yml"]);
}

#[test]
fn merged_listing_prefers_web() {
    let web = list(&[("a", r#"{"command":"web-a"}"#), ("b", r#"{"command":"web-b"}"#)]);
    let desktop = list(&[("b", r#"{"command":"desk-b"}"#), ("c", r#"{"command":"desk-c"}"#), ("a", "{}")]);
    let merged = merge_profile_reads::<String>(vec![Ok(web), Ok(desktop)]).unwrap();
    assert_eq!(names(&merged), vec!["a", "b", "c"]);
    assert_eq!(merged[0].1.get("command").and_then(|x| x.as_str()), Some("web-a"));
    assert_eq!(merged[1].1.get("command").and_then(|x| x.as_str()), Some("web-b"));
    assert_eq!(merged[2].1.get("command").and_then(|x| x.as_str()), Some("desk-c"));
}

#[test]
fn merged_listing_fails_on_a_rejected_profile() {
    let desktop = list(&[("c", "{}")]);
    let r = merge_profile_reads(vec![Err("web broken".to_string()), Ok(desktop)]);
    assert_eq!(r.unwrap_err(), "web broken");
    let both = merge_profile_reads::<String>(vec![Err("first".to_string()), Err("second".to_string())]);
    assert_eq!(both.unwrap_err(), "first");
    let later = merge_profile_reads(vec![Ok(list(&[("a", "{}")])), Err("desktop broken".to_string())]);
    assert_eq!(later.unwrap_err(), "desktop broken");
}

#[test]
fn profile_writes_fail_on_the_first_rejection() {
    assert_eq!(combine_profile_writes(vec![Err("js".to_string()), Ok(())]), Err("js".to_string()));
    assert_eq!(combine_profile_writes(vec![Ok(()), Err("desktop".to_string())]), Err("desktop".to_string()));
    assert_eq!(combine_profile_writes::<String>(vec![Ok(()), Ok(())]), Ok(()));
    assert_eq!(
        combine_profile_writes(vec![Err("web".to_string()), Err("desktop".to_string())]),
        Err("web".to_string())
    );
}

#[test]
fn empty_tag_config_is_not_converted() {
    let tagged = YamlValue::Tagged(String::new(), Box::new(YamlValue::String("x".to_string())));
    assert!(!has_nonempty_tags(&tagged));
    let ok = YamlValue::Tagged("!thing".to_string(), Box::new(YamlValue::Null));
    assert!(has_nonempty_tags(&ok));
    let plugin = YamlValue::Mapping(vec![
        (YamlValue::String("name".to_string()), YamlValue::String("@deepseek-ai/dsh-mcp-client".to_string())),
        (
            YamlValue::String("config".to_string()),
            YamlValue::Mapping(vec![
                (YamlValue::String("serverName".to_string()), YamlValue::String("echo".to_string())),
                (YamlValue::String("command".to_string()), tagged),
            ]),
        ),
    ]);
    assert!(plugin_config_to_json(&plugin).is_none());
    let entries = vec![YamlValue::Mapping(vec![(YamlValue::String("insert".to_string()), YamlValue::Sequence(vec![plugin]))])];
    let servers = get_servers(&entries);
    assert_eq!(servers.len(), 1);
    assert_eq!(servers[0].0, "echo");
    match &servers[0].1 {
        JsonValue::Object(es) => assert!(es.is_empty()),
        other => panic!("not an object: {other:?}"),
    }
}

#[test]
fn upsert_then_get_reads_back_definition() {
    let mut file = parse_patch_content("- id: harness-pet\n  disabled: true\n", "/x/cordis.patch.yml").unwrap();
    let config = j(r#"{"transport":"stdio","command":"npx","args":["-y","echo"]}"#);
    upsert_server(&mut file.entries, "echo", &config).unwrap();
    let servers = get_servers(&file.entries);
    assert_eq!(servers.len(), 1);
    assert_eq!(servers[0].0, "echo");
    assert_eq!(servers[0].1.get("command").and_then(|x| x.as_str()), Some("npx"));
    assert!(servers[0].1.get("serverName").is_none());
}

#[test]
fn removal_lists_the_other_servers_in_order() {
    let text = "- insert:\n    - id: p1\n      name: '@deepseek-ai/dsh-mcp-client'\n      config:\n        serverName: a\n        command: x\n    - id: p2\n      name: '@deepseek-ai/dsh-mcp-client'\n      config:\n        serverName: b\n        command: y\n- insert:\n    - id: p3\n      name: '@deepseek-ai/dsh-mcp-client'\n      config:\n        serverName: a\n        command: z\n    - id: p4\n      name: '@deepseek-ai/dsh-mcp-client'\n      config:\n        serverName: c\n        command: w\n";
    let mut file = parse_patch_content(text, "/x/cordis.patch.yml").unwrap();
    assert_eq!(names(&get_servers(&file.entries)), vec!["a", "b", "a", "c"]);
    assert!(cc_switch::dsh_patch::remove_server(&mut file.entries, "a"));
    let after = get_servers(&file.entries);
    assert_eq!(names(&after), vec!["b", "c"]);
    assert_eq!(after[0].1.get("command").and_then(|x| x.as_str()), Some("y"));
    assert_eq!(after[1].1.get("command").and_then(|x| x.as_str()), Some("w"));
}
