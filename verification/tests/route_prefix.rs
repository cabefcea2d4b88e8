use cc_switch::route_prefix::{
    build_route_models_list, normalize_route_prefix, parse_route_target, resolve_route_provider,
    split_base_and_one_m, validate_route_prefix, ModelMapping, ParsedRoute, RouteBindingStore,
    RouteModelEntry, RouteModelsMode, RouteProvider,
};
use indexmap::IndexMap;
use std::time::Duration;

fn pr(key: &str, model_override: Option<&str>) -> Option<ParsedRoute> {
    Some(ParsedRoute {
        key: key.to_string(),
        model_override: model_override.map(str::to_string),
    })
}

#[test]
fn validate_accepts_prefixed_triggers() {
    assert!(validate_route_prefix("G.").is_ok());
    assert!(validate_route_prefix("@").is_ok());
    assert!(validate_route_prefix("##").is_ok());
    assert!(validate_route_prefix("R.").is_ok());
}

#[test]
fn validate_rejects_bare_alnum_ending() {
    assert!(validate_route_prefix("G").is_err());
    assert!(validate_route_prefix("go").is_err());
}

#[test]
fn validate_rejects_colon_whitespace_long_and_non_ascii() {
    assert!(validate_route_prefix("").is_err());
    assert!(validate_route_prefix("G :").is_err());
    assert!(validate_route_prefix("G. ").is_err());
    assert!(validate_route_prefix("toolongpfx.").is_err());
    assert!(validate_route_prefix("路.").is_err());
}

#[test]
fn validate_reports_the_first_broken_rule() {
    assert_eq!(validate_route_prefix("").unwrap_err(), "路由前缀不能为空");
    assert_eq!(
        validate_route_prefix("toolongpfx.").unwrap_err(),
        "路由前缀长度须为 1–8 个字符: toolongpfx."
    );
    assert_eq!(
        validate_route_prefix("G :").unwrap_err(),
        "路由前缀只能使用可打印 ASCII 字符（不含空白）: G :"
    );
    assert_eq!(
        validate_route_prefix("G:.").unwrap_err(),
        "路由前缀不能包含冒号「:」（它是 key 与模型名的分隔符）: G:."
    );
    assert_eq!(
        validate_route_prefix("go").unwrap_err(),
        "路由前缀必须以非字母数字字符结尾（如「.」「@」「#」）: go"
    );
}

#[test]
fn parse_returns_none_without_prefix() {
    assert_eq!(parse_route_target("sonnet", "G."), None);
    assert_eq!(parse_route_target("glm-4.7", "G."), None);
    assert_eq!(parse_route_target("", "G."), None);
    assert_eq!(parse_route_target("model-opus-4-8", "@"), None);
}

#[test]
fn parse_key_only_and_key_model() {
    assert_eq!(parse_route_target("G.ds", "G."), pr("ds", None));
    assert_eq!(
        parse_route_target("G.ds:model-opus-4-8", "G."),
        pr("ds", Some("model-opus-4-8"))
    );
    assert_eq!(
        parse_route_target("G.mini:MiniMax-M2.7-highspeed", "G."),
        pr("mini", Some("MiniMax-M2.7-highspeed"))
    );
    assert_eq!(parse_route_target("G.ds:", "G."), pr("ds", None));
    assert_eq!(
        parse_route_target("G.my-key.v2:sonnet", "G."),
        pr("my-key.v2", Some("sonnet"))
    );
}

#[test]
fn parse_is_case_insensitive_on_prefix_and_keeps_model_case() {
    assert_eq!(
        parse_route_target("g.DS:DeepSeek-R1", "G."),
        pr("DS", Some("DeepSeek-R1"))
    );
    assert_eq!(parse_route_target("@ds", "@"), pr("ds", None));
}

#[test]
fn parse_tolerates_one_m_suffix_both_forms() {
    assert_eq!(parse_route_target("G.ds[1M]", "G."), pr("ds", None));
    assert_eq!(
        parse_route_target("G.ds:sonnet[1M]", "G."),
        pr("ds", Some("sonnet"))
    );
    assert_eq!(split_base_and_one_m("x[1m]"), ("x".to_string(), true));
    assert_eq!(split_base_and_one_m("x[1M]"), ("x".to_string(), true));
    assert_eq!(split_base_and_one_m("x"), ("x".to_string(), false));
}

#[test]
fn parse_reserved_default_and_empty_key() {
    assert_eq!(parse_route_target("G.default", "G."), pr("default", None));
    assert_eq!(parse_route_target("@default", "@"), pr("default", None));
    assert_eq!(parse_route_target("G.", "G."), pr("", None));
}

#[test]
fn parse_trims_key_and_model_and_handles_multibyte_models() {
    assert_eq!(
        parse_route_target("G. ds : opus ", "G."),
        pr("ds", Some("opus"))
    );
    assert_eq!(parse_route_target("G.键:模型", "G."), pr("键", Some("模型")));
    // a non-ASCII prefix is sliced by its byte length
    assert_eq!(parse_route_target("路.ds", "路."), pr("ds", None));
}

#[test]
fn normalize_falls_back_to_default_on_invalid() {
    assert_eq!(normalize_route_prefix(None), "G.");
    assert_eq!(normalize_route_prefix(Some("")), "G.");
    assert_eq!(normalize_route_prefix(Some("  ")), "G.");
    assert_eq!(normalize_route_prefix(Some("G")), "G.");
    assert_eq!(normalize_route_prefix(Some("@")), "@");
    assert_eq!(normalize_route_prefix(Some(" R. ")), "R.");
}

#[test]
fn bind_lookup_and_rebind_override() {
    let mut store = RouteBindingStore::new(10, Duration::from_secs(60));
    assert_eq!(store.lookup("s1"), None);
    store.bind("s1", "ds");
    assert_eq!(store.lookup("s1"), Some("ds".to_string()));
    store.bind("s1", "glm");
    assert_eq!(store.lookup("s1"), Some("glm".to_string()));
}

#[test]
fn lookup_expires_after_ttl() {
    // 50 ms time-to-live, driven by explicit times (nanoseconds)
    let mut store = RouteBindingStore::new(10, Duration::from_millis(50));
    store.bind_at("s1", "ds", 0);
    assert_eq!(store.lookup_at("s1", 10_000_000), Some("ds".to_string()));
    assert_eq!(store.lookup_at("s1", 90_000_000), None);
    assert_eq!(store.lookup_at("s1", 90_000_001), None);
}

#[test]
fn lookup_renews_a_live_binding() {
    let mut store = RouteBindingStore::new(10, Duration::from_millis(50));
    store.bind_at("s1", "ds", 0);
    assert_eq!(store.lookup_at("s1", 40_000_000), Some("ds".to_string()));
    assert_eq!(store.lookup_at("s1", 80_000_000), Some("ds".to_string()));
    assert_eq!(store.lookup_at("s1", 131_000_000), None);
}

#[test]
fn unbind_removes_binding() {
    let mut store = RouteBindingStore::default();
    store.bind("s1", "ds");
    store.unbind("s1");
    assert_eq!(store.lookup("s1"), None);
    store.unbind("s1");
}

#[test]
fn capacity_evicts_least_recently_used() {
    let mut store = RouteBindingStore::new(2, Duration::from_secs(60));
    store.bind_at("s1", "a", 1);
    store.bind_at("s2", "b", 2);
    assert_eq!(store.lookup_at("s1", 3), Some("a".to_string()));
    store.bind_at("s3", "c", 4);
    assert_eq!(store.lookup_at("s1", 5), Some("a".to_string()));
    assert_eq!(store.lookup_at("s2", 5), None);
    assert_eq!(store.lookup_at("s3", 5), Some("c".to_string()));
}

#[test]
fn zero_capacity_keeps_nothing() {
    let mut store = RouteBindingStore::new(0, Duration::from_secs(60));
    store.bind_at("s1", "a", 1);
    assert_eq!(store.lookup_at("s1", 2), None);
}

fn mapping() -> ModelMapping {
    ModelMapping {
        sonnet_model: None,
        opus_model: None,
        fable_model: None,
        haiku_model: None,
        subagent_model: None,
        default_model: None,
    }
}

fn routed_provider(id: &str, key: &str, sort_index: Option<usize>) -> RouteProvider {
    RouteProvider {
        id: id.to_string(),
        name: format!("P-{id}"),
        sort_index,
        route_enabled: Some(true),
        route_key: Some(key.to_string()),
        mapping: mapping(),
    }
}

fn all_providers(entries: Vec<RouteProvider>) -> IndexMap<String, RouteProvider> {
    entries.into_iter().map(|p| (p.id.clone(), p)).collect()
}

#[test]
fn resolve_matches_key_case_insensitively() {
    let all = all_providers(vec![routed_provider("a", "ds", None)]);
    let hit = resolve_route_provider(&all, "DS").expect("case-insensitive hit");
    assert_eq!(hit.id, "a");
}

#[test]
fn resolve_ignores_disabled_and_keyless_providers() {
    let mut disabled = routed_provider("a", "ds", None);
    disabled.route_enabled = Some(false);
    let mut keyless = routed_provider("b", "", None);
    keyless.route_key = None;
    let all = all_providers(vec![disabled, keyless]);
    assert!(resolve_route_provider(&all, "ds").is_err());
}

#[test]
fn resolve_duplicate_key_falls_back_to_smallest_sort_index() {
    let all = all_providers(vec![
        routed_provider("later", "ds", Some(5)),
        routed_provider("first", "ds", Some(1)),
    ]);
    let hit = resolve_route_provider(&all, "ds").expect("fallback hit");
    assert_eq!(hit.id, "first");
}

#[test]
fn resolve_missing_key_fails_closed_with_available_list() {
    let all = all_providers(vec![
        routed_provider("a", "ds", None),
        routed_provider("b", "glm", None),
    ]);
    let err = resolve_route_provider(&all, "notexist").expect_err("fail-closed");
    let msg = err.message();
    assert!(msg.contains("notexist"), "msg: {msg}");
    assert!(msg.contains("ds") && msg.contains("glm"), "msg: {msg}");
    assert_eq!(
        msg,
        "路由 key「notexist」未匹配到已加入路由的分组（当前可用: ds, glm）"
    );
}

#[test]
fn resolve_missing_key_with_no_routed_groups_says_none() {
    let all = all_providers(vec![]);
    let msg = resolve_route_provider(&all, "x").expect_err("fail-closed").message();
    assert_eq!(msg, "路由 key「x」未匹配到已加入路由的分组（当前可用: 无）");
}

fn route_list_provider(
    id: &str,
    name: &str,
    route_key: Option<&str>,
    mapping: ModelMapping,
) -> RouteProvider {
    RouteProvider {
        id: id.to_string(),
        name: name.to_string(),
        sort_index: None,
        route_enabled: Some(route_key.is_some()),
        route_key: route_key.map(str::to_string),
        mapping,
    }
}

fn ds_group() -> RouteProvider {
    let mut m = mapping();
    m.sonnet_model = Some("deepseek-v4-pro[1M]".to_string());
    m.opus_model = Some("deepseek-v4-pro".to_string());
    m.default_model = Some("deepseek-v4-pro[1M]".to_string());
    route_list_provider("p1", "DeepSeek", Some("DS"), m)
}

fn kc_group() -> RouteProvider {
    let mut m = mapping();
    m.default_model = Some("kimi-k2".to_string());
    route_list_provider("p2", "Kimi", Some("KC"), m)
}

fn plain_group() -> RouteProvider {
    route_list_provider("p3", "Official", None, mapping())
}

fn entry_ids(entries: &[RouteModelEntry]) -> Vec<String> {
    entries.iter().map(|e| e.id.clone()).collect()
}

#[test]
fn models_list_groups_mode_returns_group_entries_only() {
    let all = all_providers(vec![ds_group(), kc_group(), plain_group()]);
    let entries = build_route_models_list(&all, "G.", RouteModelsMode::Groups);
    assert_eq!(entry_ids(&entries), vec!["G.Default", "G.DS[1M]", "G.KC"]);
    assert_eq!(entries[0].display_name, "Default");
    assert_eq!(entries[1].display_name, "DS[1M]");
    assert_eq!(entries[1].kind, "model");
    assert_eq!(entries[1].created_at, "1970-01-01T00:00:00Z");
}

#[test]
fn models_list_models_mode_dedupes_and_merges_one_m() {
    let all = all_providers(vec![ds_group(), kc_group()]);
    let entries = build_route_models_list(&all, "G.", RouteModelsMode::Models);
    assert_eq!(
        entry_ids(&entries),
        vec!["G.Default", "G.DS:deepseek-v4-pro[1M]", "G.KC:kimi-k2"]
    );
    assert_eq!(entries[1].display_name, "DS:deepseek-v4-pro[1M]");
}

#[test]
fn models_list_both_mode_groups_first() {
    let all = all_providers(vec![ds_group(), kc_group()]);
    let entries = build_route_models_list(&all, "G.", RouteModelsMode::Both);
    assert_eq!(
        entry_ids(&entries),
        vec![
            "G.Default",
            "G.DS[1M]",
            "G.KC",
            "G.DS:deepseek-v4-pro[1M]",
            "G.KC:kimi-k2"
        ]
    );
}

#[test]
fn models_list_fallback_entry_leads_in_every_mode() {
    let all = all_providers(vec![ds_group()]);
    for mode in [
        RouteModelsMode::Groups,
        RouteModelsMode::Models,
        RouteModelsMode::Both,
    ] {
        let entries = build_route_models_list(&all, "@", mode);
        assert_eq!(
            entry_ids(&entries).first().map(String::as_str),
            Some("@Default")
        );
        assert_eq!(entries[0].display_name, "Default");
    }
}

#[test]
fn models_list_skips_dirty_and_duplicate_keys() {
    let dirty = route_list_provider("p4", "Dirty", Some("  "), mapping());
    let dup = route_list_provider("p5", "Dup", Some("ds"), mapping());
    let all = all_providers(vec![ds_group(), dirty, dup]);
    let entries = build_route_models_list(&all, "G.", RouteModelsMode::Groups);
    assert_eq!(entry_ids(&entries), vec!["G.Default", "G.DS[1M]"]);
}

#[test]
fn models_list_empty_when_no_route_groups() {
    let all = all_providers(vec![plain_group()]);
    for mode in [
        RouteModelsMode::Groups,
        RouteModelsMode::Models,
        RouteModelsMode::Both,
    ] {
        assert!(build_route_models_list(&all, "G.", mode).is_empty());
    }
}
