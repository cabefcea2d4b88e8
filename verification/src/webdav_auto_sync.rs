//! Decisions of the WebDAV/S3 auto-sync worker: which table changes trigger a
//! backup, the suppression depth, the debounce window and whether to run.
use vstd::prelude::*;
use crate::text::{str_eq, to_owned_string};
use crate::json::{JsonValue, JsonView, entries_view, lemma_object_view};

verus! {

pub const AUTO_SYNC_DEBOUNCE_MS: u64 = 1000;
pub const MAX_AUTO_SYNC_WAIT_MS: u64 = 10_000;

/// Database tables whose changes are worth a backup: the configuration tables.
/// Runtime tables (request logs, health statistics, ...) are not.
pub open spec fn is_sync_table(t: Seq<char>) -> bool {
    ||| t == "providers"@
    ||| t == "provider_endpoints"@
    ||| t == "profiles"@
    ||| t == "mcp_servers"@
    ||| t == "prompts"@
    ||| t == "skills"@
    ||| t == "skill_repos"@
    ||| t == "settings"@
    ||| t == "proxy_config"@
}

pub fn should_trigger_for_table(table: &str) -> (r: bool)
    ensures
        r == is_sync_table(table@),
{
    str_eq(table, "providers") || str_eq(table, "provider_endpoints") || str_eq(table, "profiles")
        || str_eq(table, "mcp_servers") || str_eq(table, "prompts") || str_eq(table, "skills")
        || str_eq(table, "skill_repos") || str_eq(table, "settings") || str_eq(table, "proxy_config")
}

/// Nesting depth of auto-sync suppression (restores and bulk imports
/// suppress the change notifications they cause).
pub struct AutoSyncSuppression {
    depth: usize,
}

/// Proof of one level of suppression; give it back with `release`.
pub struct AutoSyncSuppressionGuard {
    _private: (),
}

/// The depth after entering one level of suppression (wrapping like an
/// atomic add at the top of the counter's range).
pub open spec fn entered_depth(d: nat) -> nat {
    if d == usize::MAX as nat {
        0
    } else {
        d + 1
    }
}

/// The depth after leaving one level (saturating at zero).
pub open spec fn left_depth(d: nat) -> nat {
    if d == 0 {
        0
    } else {
        (d - 1) as nat
    }
}

/// Entering and then leaving a level of suppression restores the state it
/// was in, and suppression holds in between.
pub proof fn law_guard_restores_depth(d: nat)
    requires
        d < usize::MAX,
    ensures
        entered_depth(d) > 0,
        left_depth(entered_depth(d)) == d,
{
}

impl AutoSyncSuppression {
    pub closed spec fn depth(&self) -> nat {
        self.depth as nat
    }

    pub fn new() -> (r: Self)
        ensures
            r.depth() == 0,
    {
        AutoSyncSuppression { depth: 0 }
    }

    pub fn is_auto_sync_suppressed(&self) -> (r: bool)
        ensures
            r == (self.depth() > 0),
    {
        self.depth > 0
    }
}

impl AutoSyncSuppressionGuard {
    /// Enters one level of suppression (the counter wraps like an atomic add).
    pub fn new(state: &mut AutoSyncSuppression) -> (r: Self)
        ensures
            final(state).depth() == entered_depth(old(state).depth()),
    {
        state.depth = if state.depth == usize::MAX {
            0
        } else {
            state.depth + 1
        };
        AutoSyncSuppressionGuard { _private: () }
    }

    /// Leaves one level of suppression (saturating at zero).
    pub fn release(self, state: &mut AutoSyncSuppression)
        ensures
            final(state).depth() == left_depth(old(state).depth()),
    {
        if state.depth > 0 {
            state.depth = state.depth - 1;
        }
    }
}

/// Whether a change of `table` must be signalled to the worker: not while
/// suppressed, and only for configuration tables.
pub fn notify_db_changed(state: &AutoSyncSuppression, table: &str) -> (r: bool)
    ensures
        r == (state.depth() == 0 && is_sync_table(table@)),
{
    if state.is_auto_sync_suppressed() {
        return false;
    }
    should_trigger_for_table(table)
}

/// How long to keep collecting changes after `elapsed` since the first one
/// (all in one unit): the debounce, capped by what is left of the maximum
/// wait; `None` once the maximum wait has passed.
pub open spec fn spec_wait_in(elapsed: u64, debounce: u64, max: u64) -> Option<u64> {
    if elapsed >= max {
        None
    } else if debounce <= max - elapsed {
        Some(debounce)
    } else {
        Some((max - elapsed) as u64)
    }
}

/// The wait in milliseconds.
pub open spec fn spec_wait_ms(elapsed_ms: u64) -> Option<u64> {
    spec_wait_in(elapsed_ms, AUTO_SYNC_DEBOUNCE_MS, MAX_AUTO_SYNC_WAIT_MS)
}

/// The wait in nanoseconds, the unit of std's `Duration`.
pub open spec fn spec_wait_nanos(elapsed_nanos: u64) -> Option<u64> {
    spec_wait_in(elapsed_nanos, AUTO_SYNC_DEBOUNCE_NANOS, MAX_AUTO_SYNC_WAIT_NANOS)
}

pub const AUTO_SYNC_DEBOUNCE_NANOS: u64 = AUTO_SYNC_DEBOUNCE_MS * 1_000_000;
pub const MAX_AUTO_SYNC_WAIT_NANOS: u64 = MAX_AUTO_SYNC_WAIT_MS * 1_000_000;

/// The worker never waits past the maximum: every wait is at most the
/// debounce, and the changes collected since the first one are flushed no
/// later than the maximum wait after it.
pub proof fn law_wait_is_capped(elapsed: u64, debounce: u64, max: u64)
    ensures
        match spec_wait_in(elapsed, debounce, max) {
            Some(w) => w <= debounce && elapsed + w <= max,
            None => elapsed >= max,
        },
{
}

fn wait_in(elapsed: u64, debounce: u64, max: u64) -> (r: Option<u64>)
    ensures
        r == spec_wait_in(elapsed, debounce, max),
{
    if elapsed >= max {
        return None;
    }
    let left = max - elapsed;
    Some(if debounce <= left { debounce } else { left })
}

pub fn auto_sync_wait_ms(elapsed_ms: u64) -> (r: Option<u64>)
    ensures
        r == spec_wait_ms(elapsed_ms),
{
    wait_in(elapsed_ms, AUTO_SYNC_DEBOUNCE_MS, MAX_AUTO_SYNC_WAIT_MS)
}

pub fn auto_sync_wait_nanos(elapsed_nanos: u64) -> (r: Option<u64>)
    ensures
        r == spec_wait_nanos(elapsed_nanos),
{
    wait_in(elapsed_nanos, AUTO_SYNC_DEBOUNCE_NANOS, MAX_AUTO_SYNC_WAIT_NANOS)
}

/// Nanoseconds from `started_at` to `now` (std `Instant::saturating_duration_since`,
/// saturated to `u64`). Depends on the instants; `Instant` is opaque here.
#[verifier::external_body]
fn nanos_between(started_at: std::time::Instant, now: std::time::Instant) -> u64 {
    u64::try_from(now.saturating_duration_since(started_at).as_nanos()).unwrap_or(u64::MAX)
}

/// The `Duration` of `n` nanoseconds, as std `Duration::from_nanos` makes it.
pub uninterp spec fn duration_of_nanos(n: u64) -> std::time::Duration;

/// std `Duration::from_nanos`: a function of `n` alone, named
/// `duration_of_nanos`. `Duration` is opaque here, so nothing more is said
/// of the value.
#[verifier::external_body]
fn duration_from_nanos(n: u64) -> (r: std::time::Duration)
    ensures
        r == duration_of_nanos(n),
{
    std::time::Duration::from_nanos(n)
}

/// The wait after `elapsed_nanos` nanoseconds, as a `Duration`.
pub open spec fn wait_duration_of(elapsed_nanos: u64) -> Option<std::time::Duration> {
    match spec_wait_nanos(elapsed_nanos) {
        Some(w) => Some(duration_of_nanos(w)),
        None => None,
    }
}

/// The wait for the instants `started_at` and `now`: `auto_sync_wait_nanos`
/// of the nanoseconds between them, as a `Duration`. The nanoseconds come
/// from std's `Instant`, which is opaque here: the contract says that the
/// result is the wait for some number of elapsed nanoseconds, not for which.
pub fn auto_sync_wait_duration(started_at: std::time::Instant, now: std::time::Instant) -> (r: Option<std::time::Duration>)
    ensures
        exists|elapsed_nanos: u64| r == #[trigger] wait_duration_of(elapsed_nanos),
{
    let elapsed = nanos_between(started_at, now);
    let r = match auto_sync_wait_nanos(elapsed) {
        Some(n) => Some(duration_from_nanos(n)),
        None => None,
    };
    assert(r == wait_duration_of(elapsed));
    r
}

/// Status of the last sync.
#[derive(Debug, Clone)]
pub struct WebDavSyncStatus {
    pub last_error: Option<String>,
    pub last_error_source: Option<String>,
}

/// What the worker reads of the WebDAV sync settings.
#[derive(Debug, Clone)]
pub struct WebDavSyncSettings {
    pub enabled: bool,
    pub auto_sync: bool,
    pub startup_delay_minutes: u32,
    pub status: WebDavSyncStatus,
}

impl Default for WebDavSyncSettings {
    fn default() -> (r: Self)
        ensures
            !r.enabled,
            !r.auto_sync,
            r.startup_delay_minutes == 0,
            r.status.last_error is None,
            r.status.last_error_source is None,
    {
        WebDavSyncSettings {
            enabled: false,
            auto_sync: false,
            startup_delay_minutes: 0,
            status: WebDavSyncStatus { last_error: None, last_error_source: None },
        }
    }
}

/// Auto sync runs only when sync is configured, enabled and set to automatic.
pub fn should_run_auto_sync(settings: Option<&WebDavSyncSettings>) -> (r: bool)
    ensures
        r == match settings {
            Some(s) => s.enabled && s.auto_sync,
            None => false,
        },
{
    match settings {
        Some(sync) => sync.enabled && sync.auto_sync,
        None => false,
    }
}

/// Records a failed automatic upload in the sync status (source `auto`).
pub fn persist_auto_sync_error(settings: &mut WebDavSyncSettings, error: &str)
    ensures
        final(settings).status.last_error matches Some(e) && e@ == error@,
        final(settings).status.last_error_source matches Some(s) && s@ == "auto"@,
        final(settings).enabled == old(settings).enabled,
        final(settings).auto_sync == old(settings).auto_sync,
        final(settings).startup_delay_minutes == old(settings).startup_delay_minutes,
{
    settings.status.last_error = Some(crate::text::to_owned_string(error));
    settings.status.last_error_source = Some(crate::text::to_owned_string("auto"));
}

/// The `webdav-sync-status-updated` event payload of an automatic run:
/// `{source: "auto", status}` and the error's message when it failed.
pub open spec fn status_payload_v(status: Seq<char>, error: Option<Seq<char>>) -> JsonView {
    let base = seq![("source"@, JsonView::Str("auto"@)), ("status"@, JsonView::Str(status))];
    JsonView::Object(
        match error {
            Some(m) => base.push(("error"@, JsonView::Str(m))),
            None => base,
        },
    )
}

pub fn auto_sync_status_payload(status: &str, error: Option<&str>) -> (r: JsonValue)
    ensures
        r@ == status_payload_v(status@, match error {
            Some(m) => Some(m@),
            None => None,
        }),
{
    let mut es: Vec<(String, JsonValue)> = Vec::new();
    es.push((to_owned_string("source"), JsonValue::String(to_owned_string("auto"))));
    es.push((to_owned_string("status"), JsonValue::String(to_owned_string(status))));
    match error {
        Some(m) => {
            es.push((to_owned_string("error"), JsonValue::String(to_owned_string(m))));
        },
        None => {},
    }
    proof {
        lemma_object_view(es);
        let e = match error {
            Some(m) => Some(m@),
            None => None,
        };
        assert(entries_view(es@) =~= status_payload_v(status@, e)->Object_0);
    }
    JsonValue::Object(es)
}

/// The startup delay in milliseconds (minutes × 60 000).
pub fn startup_delay_ms(minutes: u32) -> (r: u64)
    ensures
        r == minutes * 60000,
{
    (minutes as u64) * 60000
}

} // verus!
