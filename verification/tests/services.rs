use cc_switch::app_config::AppType;
use cc_switch::usage_cache::UsageCache;
use cc_switch::usage_refresher::{is_due, RefreshAttempts};
use cc_switch::webdav_auto_sync::{
    auto_sync_status_payload, auto_sync_wait_duration, auto_sync_wait_ms, auto_sync_wait_nanos, notify_db_changed,
    persist_auto_sync_error, should_run_auto_sync, should_trigger_for_table, startup_delay_ms,
    AutoSyncSuppression, AutoSyncSuppressionGuard, WebDavSyncSettings, AUTO_SYNC_DEBOUNCE_MS,
    MAX_AUTO_SYNC_WAIT_MS,
};
use cc_switch::json::to_json_text;
use std::time::{Duration, Instant};

struct Quota {
    success: bool,
}

#[derive(Clone)]
struct UsageResult {
    success: bool,
}

fn fake_quota() -> Quota {
    Quota { success: true }
}

fn fake_result() -> UsageResult {
    UsageResult { success: true }
}

#[test]
fn subscription_round_trip() {
    let mut cache: UsageCache<Quota, UsageResult> = UsageCache::new();
    assert!(cache
        .with_subscription(&AppType::AnthropicCli, |q| q.success)
        .is_none());
    cache.put_subscription(AppType::AnthropicCli, fake_quota());
    let got = cache
        .with_subscription(&AppType::AnthropicCli, |q| q.success)
        .unwrap();
    assert!(got);
    assert!(cache
        .with_subscription(&AppType::Codex, |q| q.success)
        .is_none());
}

#[test]
fn script_round_trip_and_invalidate() {
    let mut cache: UsageCache<Quota, UsageResult> = UsageCache::new();
    assert!(cache
        .with_script(&AppType::Codex, "pid", |r| r.success)
        .is_none());
    cache.put_script(AppType::Codex, "pid".to_string(), fake_result());
    assert!(cache
        .with_script(&AppType::Codex, "pid", |r| r.success)
        .is_some());
    cache.invalidate_script(&AppType::Codex, "pid");
    assert!(cache
        .with_script(&AppType::Codex, "pid", |r| r.success)
        .is_none());
}

#[test]
fn script_keys_isolated_by_app_type() {
    let mut cache: UsageCache<Quota, UsageResult> = UsageCache::new();
    cache.put_script(AppType::AnthropicCli, "same".to_string(), fake_result());
    assert!(cache
        .with_script(&AppType::AnthropicCli, "same", |r| r.success)
        .is_some());
    assert!(cache
        .with_script(&AppType::Codex, "same", |r| r.success)
        .is_none());
}

#[test]
fn invalidate_all_clears_subscription_and_script_snapshots() {
    let mut cache: UsageCache<Quota, UsageResult> = UsageCache::new();
    cache.put_subscription(AppType::AnthropicCli, fake_quota());
    cache.put_script(AppType::Codex, "provider".to_string(), fake_result());

    cache.invalidate_all();

    assert!(cache
        .with_subscription(&AppType::AnthropicCli, |quota| quota.success)
        .is_none());
    assert!(cache
        .with_script(&AppType::Codex, "provider", |usage| usage.success)
        .is_none());
}

#[test]
fn snapshot_scripts_lists_each_cached_result_with_its_time() {
    let mut cache: UsageCache<Quota, UsageResult> = UsageCache::new();
    cache.put_script_at(AppType::AnthropicCli, "a".to_string(), fake_result(), 100);
    cache.put_script_at(AppType::Codex, "b".to_string(), UsageResult { success: false }, 200);
    cache.invalidate_script(&AppType::Codex, "missing");
    let snap = cache.snapshot_scripts();
    assert_eq!(snap.len(), 2);
    let a = snap.iter().find(|s| s.provider_id == "a").unwrap();
    assert_eq!(a.app_type, AppType::AnthropicCli);
    assert_eq!(a.queried_at, 100);
    assert!(a.result.success);
    let b = snap.iter().find(|s| s.provider_id == "b").unwrap();
    assert_eq!(b.app_type, AppType::Codex);
    assert!(!b.result.success);
    assert_eq!(cache.script_queried_at(&AppType::Codex, "b"), Some(200));
}

#[test]
fn put_script_replaces_earlier_result_for_the_same_key() {
    let mut cache: UsageCache<Quota, UsageResult> = UsageCache::new();
    cache.put_script_at(AppType::Codex, "p".to_string(), fake_result(), 1);
    cache.put_script_at(AppType::Codex, "p".to_string(), UsageResult { success: false }, 2);
    assert_eq!(cache.with_script(&AppType::Codex, "p", |r| r.success), Some(false));
    assert_eq!(cache.script_queried_at(&AppType::Codex, "p"), Some(2));
    assert_eq!(cache.snapshot_scripts().len(), 1);
}

#[test]
fn invalidate_subscription_keeps_other_apps() {
    let mut cache: UsageCache<Quota, UsageResult> = UsageCache::new();
    cache.put_subscription(AppType::AnthropicCli, fake_quota());
    cache.put_subscription(AppType::Codex, fake_quota());
    cache.invalidate_subscription(&AppType::AnthropicCli);
    assert!(cache.with_subscription(&AppType::AnthropicCli, |q| q.success).is_none());
    assert_eq!(cache.with_subscription(&AppType::Codex, |q| q.success), Some(true));
}

const MIN: i64 = 60 * 1000;

#[test]
fn never_queried_is_due() {
    assert!(is_due(5, None, None, 0));
}

#[test]
fn fresh_cache_skips() {
    assert!(!is_due(5, None, Some(3 * MIN), 6 * MIN));
    assert!(!is_due(10, None, Some(6 * MIN), 12 * MIN));
}

#[test]
fn stale_cache_is_due() {
    assert!(is_due(10, None, Some(11 * MIN), 22 * MIN));
    assert!(is_due(0, None, Some(6 * MIN), 12 * MIN));
}

#[test]
fn failed_attempt_throttles_retry() {
    assert!(!is_due(5, Some(2 * MIN), Some(8 * MIN), 10 * MIN));
    assert!(is_due(5, Some(5 * MIN), Some(8 * MIN), 13 * MIN));
}

#[test]
fn is_due_exactly_at_interval_boundary() {
    assert!(is_due(5, None, Some(0), 5 * MIN));
    assert!(!is_due(5, None, Some(0), 5 * MIN - 1));
    assert!(!is_due(5, Some(i64::MAX), None, i64::MIN));
}

#[test]
fn refresh_attempts_remember_the_latest_attempt() {
    let mut attempts = RefreshAttempts::new();
    assert_eq!(attempts.last_attempt(AppType::Codex, "p"), None);
    attempts.record(AppType::Codex, "p".to_string(), 10);
    attempts.record(AppType::Codex, "p".to_string(), 20);
    assert_eq!(attempts.last_attempt(AppType::Codex, "p"), Some(20));
    assert_eq!(attempts.last_attempt(AppType::Gemini, "p"), None);
}

#[test]
fn should_trigger_sync_for_config_tables_only() {
    assert!(should_trigger_for_table("providers"));
    assert!(should_trigger_for_table("profiles"));
    assert!(should_trigger_for_table("settings"));
    assert!(!should_trigger_for_table("proxy_request_logs"));
    assert!(!should_trigger_for_table("provider_health"));
}

#[test]
fn suppression_guard_enables_and_restores_state() {
    let mut state = AutoSyncSuppression::new();
    assert!(!state.is_auto_sync_suppressed());
    {
        let guard = AutoSyncSuppressionGuard::new(&mut state);
        assert!(state.is_auto_sync_suppressed());
        guard.release(&mut state);
    }
    assert!(!state.is_auto_sync_suppressed());
}

#[test]
fn nested_suppression_needs_every_guard_released() {
    let mut state = AutoSyncSuppression::new();
    let outer = AutoSyncSuppressionGuard::new(&mut state);
    let inner = AutoSyncSuppressionGuard::new(&mut state);
    inner.release(&mut state);
    assert!(state.is_auto_sync_suppressed());
    assert!(!notify_db_changed(&state, "providers"));
    outer.release(&mut state);
    assert!(!state.is_auto_sync_suppressed());
    assert!(notify_db_changed(&state, "providers"));
    assert!(!notify_db_changed(&state, "proxy_request_logs"));
}

#[test]
fn max_wait_caps_flush_latency_for_continuous_events() {
    let started = Instant::now();
    let later = started + Duration::from_millis(MAX_AUTO_SYNC_WAIT_MS + 1);
    assert!(auto_sync_wait_duration(started, later).is_none());
}

#[test]
fn wait_is_debounce_until_the_cap_is_near() {
    assert_eq!(auto_sync_wait_ms(0), Some(AUTO_SYNC_DEBOUNCE_MS));
    assert_eq!(auto_sync_wait_ms(9_500), Some(500));
    assert_eq!(auto_sync_wait_ms(MAX_AUTO_SYNC_WAIT_MS), None);
    let started = Instant::now();
    assert_eq!(
        auto_sync_wait_duration(started, started),
        Some(Duration::from_millis(AUTO_SYNC_DEBOUNCE_MS))
    );
}

#[test]
fn wait_near_the_cap_keeps_sub_millisecond_precision() {
    let started = Instant::now();
    let now = started + Duration::from_millis(MAX_AUTO_SYNC_WAIT_MS - 1) + Duration::from_micros(400);
    assert_eq!(auto_sync_wait_duration(started, now), Some(Duration::from_micros(600)));
    assert_eq!(auto_sync_wait_nanos(9_999_400_000), Some(600_000));
}

#[test]
fn should_run_auto_sync_requires_enabled_and_auto_sync_flag() {
    assert!(!should_run_auto_sync(None));

    let disabled = WebDavSyncSettings {
        enabled: false,
        auto_sync: true,
        ..WebDavSyncSettings::default()
    };
    assert!(!should_run_auto_sync(Some(&disabled)));

    let auto_sync_off = WebDavSyncSettings {
        enabled: true,
        auto_sync: false,
        ..WebDavSyncSettings::default()
    };
    assert!(!should_run_auto_sync(Some(&auto_sync_off)));

    let enabled = WebDavSyncSettings {
        enabled: true,
        auto_sync: true,
        ..WebDavSyncSettings::default()
    };
    assert!(should_run_auto_sync(Some(&enabled)));
}

#[test]
fn auto_sync_error_is_recorded_with_auto_source() {
    let mut settings = WebDavSyncSettings {
        enabled: true,
        auto_sync: true,
        ..WebDavSyncSettings::default()
    };
    persist_auto_sync_error(&mut settings, "boom");
    assert_eq!(settings.status.last_error.as_deref(), Some("boom"));
    assert_eq!(settings.status.last_error_source.as_deref(), Some("auto"));
    assert!(settings.enabled && settings.auto_sync);
}

#[test]
fn status_payload_and_startup_delay() {
    assert_eq!(
        to_json_text(&auto_sync_status_payload("error", Some("boom"))),
        r#"{"source":"auto","status":"error","error":"boom"}"#
    );
    assert_eq!(
        to_json_text(&auto_sync_status_payload("success", None)),
        r#"{"source":"auto","status":"success"}"#
    );
    assert_eq!(startup_delay_ms(2), 120_000);
}
