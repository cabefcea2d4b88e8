//! Background usage refresh scheduling: when a provider's usage is due.
use vstd::prelude::*;
use crate::app_config::AppType;
use crate::assoc::{assoc_unique, assoc_has, assoc_map, lemma_assoc_at, lemma_assoc_update, lemma_assoc_push, lemma_assoc_empty};
use crate::text::str_eq;
use crate::usage_cache::{UsageCache, queried_at_of};

verus! {

/// Lower bound of the background refresh interval, in minutes.
pub const BACKGROUND_REFRESH_MIN_MINUTES: u64 = 5;

/// The later of two optional instants (`None` counts as earliest).
pub open spec fn opt_later(a: Option<i64>, b: Option<i64>) -> Option<i64> {
    match (a, b) {
        (Some(x), Some(y)) => Some(if x >= y { x } else { y }),
        (Some(x), None) => Some(x),
        (None, Some(y)) => Some(y),
        (None, None) => None,
    }
}

/// `i64::saturating_sub`.
pub open spec fn sat_sub_i64(a: i64, b: i64) -> i64 {
    if a - b > i64::MAX {
        i64::MAX
    } else if a - b < i64::MIN {
        i64::MIN
    } else {
        (a - b) as i64
    }
}

pub open spec fn effective_interval_ms(interval_minutes: u64) -> int {
    (if interval_minutes >= BACKGROUND_REFRESH_MIN_MINUTES {
        interval_minutes
    } else {
        BACKGROUND_REFRESH_MIN_MINUTES
    }) * 60 * 1000
}

/// Due when never queried, or when at least the effective interval
/// (`max(interval, 5)` minutes) has passed since the later of the last attempt
/// (failed ones included) and the last successful cached query.
pub open spec fn spec_is_due(
    interval_minutes: u64,
    last_attempt_ms: Option<i64>,
    cached_queried_at_ms: Option<i64>,
    now_ms: i64,
) -> bool {
    match opt_later(last_attempt_ms, cached_queried_at_ms) {
        Some(last) => sat_sub_i64(now_ms, last) >= (effective_interval_ms(interval_minutes) as u64) as i64,
        None => true,
    }
}

/// A provider that is due stays due as time passes (until it is queried
/// or attempted again).
pub proof fn law_due_stays_due(
    interval_minutes: u64,
    last_attempt_ms: Option<i64>,
    cached_queried_at_ms: Option<i64>,
    now_ms: i64,
    later_ms: i64,
)
    requires
        now_ms <= later_ms,
        spec_is_due(interval_minutes, last_attempt_ms, cached_queried_at_ms, now_ms),
    ensures
        spec_is_due(interval_minutes, last_attempt_ms, cached_queried_at_ms, later_ms),
{
}

pub fn is_due(
    interval_minutes: u64,
    last_attempt_ms: Option<i64>,
    cached_queried_at_ms: Option<i64>,
    now_ms: i64,
) -> (r: bool)
    requires
        effective_interval_ms(interval_minutes) <= u64::MAX,
    ensures
        r == spec_is_due(interval_minutes, last_attempt_ms, cached_queried_at_ms, now_ms),
{
    let minutes = if interval_minutes >= BACKGROUND_REFRESH_MIN_MINUTES {
        interval_minutes
    } else {
        BACKGROUND_REFRESH_MIN_MINUTES
    };
    let effective_ms: u64 = minutes * 60 * 1000;
    let last = match (last_attempt_ms, cached_queried_at_ms) {
        (Some(x), Some(y)) => Some(if x >= y { x } else { y }),
        (Some(x), None) => Some(x),
        (None, Some(y)) => Some(y),
        (None, None) => None,
    };
    match last {
        Some(last) => {
            let diff: i128 = now_ms as i128 - last as i128;
            let elapsed: i64 = if diff > i64::MAX as i128 {
                i64::MAX
            } else if diff < i64::MIN as i128 {
                i64::MIN
            } else {
                diff as i64
            };
            elapsed >= effective_ms as i64
        },
        None => true,
    }
}

/// Zcode and DSH manage their providers themselves; the other apps are
/// refreshed in the background when they are visible.
pub open spec fn spec_refreshed_in_background(app: AppType, visible: bool) -> bool {
    visible && app != AppType::Zcode && app != AppType::Dsh
}

pub fn refreshed_in_background(app: AppType, visible: bool) -> (r: bool)
    ensures
        r == spec_refreshed_in_background(app, visible),
{
    visible && app != AppType::Zcode && app != AppType::Dsh
}

/// What the refresher reads of a provider.
#[derive(Debug, Clone)]
pub struct ProviderUsageSetting {
    pub provider_id: String,
    /// The provider has a usage script and it is enabled.
    pub usage_script_enabled: bool,
    /// `meta.usage_script.auto_query_interval` in minutes.
    pub auto_query_interval: Option<u64>,
}

/// The background interval of a provider: its auto-query interval when it has
/// an enabled usage script and the interval is set and not zero.
pub open spec fn background_interval(p: ProviderUsageSetting) -> Option<u64> {
    if !p.usage_script_enabled {
        None
    } else {
        match p.auto_query_interval {
            Some(n) => if n > 0 {
                Some(n)
            } else {
                None
            },
            None => None,
        }
    }
}

/// The interval, in milliseconds, fits in a `u64`.
pub open spec fn interval_fits(p: ProviderUsageSetting) -> bool {
    match p.auto_query_interval {
        Some(n) => effective_interval_ms(n) <= u64::MAX,
        None => true,
    }
}

pub type AttemptMap = Map<(AppType, Seq<char>), i64>;

pub open spec fn opt_get(m: AttemptMap, k: (AppType, Seq<char>)) -> Option<i64> {
    if m.dom().contains(k) {
        Some(m[k])
    } else {
        None
    }
}

/// The providers of `app` that are due, in order, and the attempt log after
/// each of them was stamped with `now`.
pub open spec fn due_scan<R>(
    app: AppType,
    ps: Seq<ProviderUsageSetting>,
    att: AttemptMap,
    scripts: Map<(AppType, Seq<char>), (R, i64)>,
    now: i64,
) -> (Seq<Seq<char>>, AttemptMap)
    decreases ps.len(),
{
    if ps.len() == 0 {
        (Seq::empty(), att)
    } else {
        let (d, a) = due_scan(app, ps.drop_last(), att, scripts, now);
        let p = ps.last();
        let k = (app, p.provider_id@);
        match background_interval(p) {
            Some(n) => if spec_is_due(n, opt_get(a, k), queried_at_of(scripts, k), now) {
                (d.push(p.provider_id@), a.insert(k, now))
            } else {
                (d, a)
            },
            None => (d, a),
        }
    }
}

/// Last refresh attempt (failed ones included) per (app, provider), kept by
/// the refresh task.
pub struct RefreshAttempts {
    entries: Vec<((AppType, String), i64)>,
}

pub open spec fn attempt_key_view(s: Seq<((AppType, String), i64)>) -> Seq<((AppType, Seq<char>), i64)> {
    s.map_values(|e: ((AppType, String), i64)| ((e.0.0, e.0.1@), e.1))
}

impl View for RefreshAttempts {
    type V = AttemptMap;

    closed spec fn view(&self) -> AttemptMap {
        assoc_map(attempt_key_view(self.entries@))
    }
}

impl RefreshAttempts {
    pub closed spec fn wf(&self) -> bool {
        assoc_unique(attempt_key_view(self.entries@))
    }

    pub fn new() -> (r: Self)
        ensures
            r.wf(),
            r@ == AttemptMap::empty(),
    {
        let r = RefreshAttempts { entries: Vec::new() };
        proof {
            assert(attempt_key_view(r.entries@) =~= Seq::<((AppType, Seq<char>), i64)>::empty());
            lemma_assoc_empty(attempt_key_view(r.entries@));
        }
        r
    }

    fn find(&self, app: AppType, provider_id: &str) -> (r: Option<usize>)
        requires
            self.wf(),
        ensures
            match r {
                Some(i) => i < self.entries@.len() && attempt_key_view(self.entries@)[i as int].0
                    == (app, provider_id@),
                None => !assoc_has(attempt_key_view(self.entries@), (app, provider_id@)),
            },
    {
        let mut i: usize = 0;
        while i < self.entries.len()
            invariant
                i <= self.entries@.len(),
                forall|j: int|
                    0 <= j < i ==> attempt_key_view(self.entries@)[j].0 != (app, provider_id@),
            decreases self.entries.len() - i,
        {
            if self.entries[i].0.0 == app && str_eq(self.entries[i].0.1.as_str(), provider_id) {
                return Some(i);
            }
            i = i + 1;
        }
        None
    }

    /// The last attempt for `(app, provider_id)`.
    pub fn last_attempt(&self, app: AppType, provider_id: &str) -> (r: Option<i64>)
        requires
            self.wf(),
        ensures
            r == opt_get(self@, (app, provider_id@)),
    {
        match self.find(app, provider_id) {
            Some(i) => {
                proof {
                    lemma_assoc_at(attempt_key_view(self.entries@), i as int);
                }
                Some(self.entries[i].1)
            },
            None => None,
        }
    }

    /// Stamps `(app, provider_id)` with `now`.
    pub fn record(&mut self, app: AppType, provider_id: String, now: i64)
        requires
            old(self).wf(),
        ensures
            final(self).wf(),
            final(self)@ == old(self)@.insert((app, provider_id@), now),
    {
        let ghost s = self.entries@;
        let ghost key = (app, provider_id@);
        match self.find(app, provider_id.as_str()) {
            Some(i) => {
                proof {
                    lemma_assoc_update(attempt_key_view(s), i as int, now);
                }
                self.entries.set(i, ((app, provider_id), now));
                proof {
                    assert(attempt_key_view(self.entries@) =~= attempt_key_view(s).update(
                        i as int,
                        (attempt_key_view(s)[i as int].0, now),
                    ));
                }
            },
            None => {
                proof {
                    lemma_assoc_push(attempt_key_view(s), key, now);
                }
                self.entries.push(((app, provider_id), now));
                proof {
                    assert(attempt_key_view(self.entries@) =~= attempt_key_view(s).push((key, now)));
                }
            },
        }
    }
}

/// The providers of `app` due for a background refresh at `now_ms`, in
/// order; each of them is stamped in the attempt log before the next one is
/// looked at.
pub fn collect_due_providers<Q, R>(
    app: AppType,
    providers: &Vec<ProviderUsageSetting>,
    cache: &UsageCache<Q, R>,
    attempts: &mut RefreshAttempts,
    now_ms: i64,
) -> (due: Vec<String>)
    requires
        cache.wf(),
        old(attempts).wf(),
        forall|i: int| 0 <= i < providers@.len() ==> interval_fits(#[trigger] providers@[i]),
    ensures
        final(attempts).wf(),
        (due@.map_values(|s: String| s@), final(attempts)@) == due_scan(
            app,
            providers@,
            old(attempts)@,
            cache.scripts(),
            now_ms,
        ),
{
    let mut due: Vec<String> = Vec::new();
    let mut i: usize = 0;
    while i < providers.len()
        invariant
            i <= providers@.len(),
            cache.wf(),
            attempts.wf(),
            forall|j: int| 0 <= j < providers@.len() ==> interval_fits(#[trigger] providers@[j]),
            (due@.map_values(|s: String| s@), attempts@) == due_scan(
                app,
                providers@.take(i as int),
                old(attempts)@,
                cache.scripts(),
                now_ms,
            ),
        decreases providers.len() - i,
    {
        let p = &providers[i];
        let ghost before = due@;
        assert(providers@.take(i + 1).drop_last() =~= providers@.take(i as int));
        assert(interval_fits(providers@[i as int]));
        if p.usage_script_enabled {
            match p.auto_query_interval {
                Some(n) => {
                    if n > 0 {
                        let last = attempts.last_attempt(app, p.provider_id.as_str());
                        let cached = cache.script_queried_at(&app, p.provider_id.as_str());
                        if is_due(n, last, cached, now_ms) {
                            attempts.record(app, p.provider_id.clone(), now_ms);
                            due.push(p.provider_id.clone());
                            assert(due@.map_values(|s: String| s@) =~= before.map_values(
                                |s: String| s@,
                            ).push(p.provider_id@));
                        }
                    }
                },
                None => {},
            }
        }
        i = i + 1;
    }
    assert(providers@.take(providers@.len() as int) =~= providers@);
    due
}

} // verus!
