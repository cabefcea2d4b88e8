//! Tray/floating-ball usage cache (in process, write-through).
//!
//! Usage queries store their results here when they succeed; the tray and the
//! floating ball read them. Nothing is persisted: a restart starts empty.
use vstd::prelude::*;
use crate::app_config::AppType;
use crate::assoc::{
    assoc_unique, assoc_has, assoc_map, lemma_assoc_at, lemma_assoc_update, lemma_assoc_push,
    lemma_assoc_remove, lemma_assoc_empty,
};
use crate::text::str_eq;

verus! {

/// Milliseconds since the Unix epoch (std `SystemTime::now`), 0 if the clock
/// is before the epoch. What it returns depends on the clock; nothing is stated.
#[verifier::external_body]
pub(crate) fn now_millis() -> i64 {
    std::time::SystemTime::now()
        .duration_since(std::time::UNIX_EPOCH)
        .map(|d| i64::try_from(d.as_millis()).unwrap_or(i64::MAX))
        .unwrap_or(0)
}

/// One cached script-usage result with the time it was queried (for the
/// "x minutes ago" hint of the floating ball panel).
pub struct UsageScriptSnapshot<R> {
    pub app_type: AppType,
    pub provider_id: String,
    pub result: R,
    pub queried_at: i64,
}

/// Cache of subscription quotas per app and script usage results per
/// (app, provider). `Q` is the quota type, `R` the usage result type.
pub struct UsageCache<Q, R> {
    subscription: Vec<(AppType, Q)>,
    script: Vec<((AppType, String), (R, i64))>,
}

pub open spec fn script_key_view<R>(
    s: Seq<((AppType, String), (R, i64))>,
) -> Seq<((AppType, Seq<char>), (R, i64))> {
    s.map_values(|e: ((AppType, String), (R, i64))| ((e.0.0, e.0.1@), e.1))
}

/// The query time of a cached script result, if any.
pub open spec fn queried_at_of<R>(m: Map<(AppType, Seq<char>), (R, i64)>, k: (AppType, Seq<char>)) -> Option<i64> {
    if m.dom().contains(k) {
        Some(m[k].1)
    } else {
        None
    }
}

/// Round trip and isolation of cached script results: what is put for a
/// (app, provider) key is what that key then holds, with the time it was
/// queried; the same provider id under another app is a different key; and
/// after an invalidation the key holds nothing.
pub proof fn law_script_round_trip<R>(
    m: Map<(AppType, Seq<char>), (R, i64)>,
    app: AppType,
    provider: Seq<char>,
    result: R,
    now: i64,
    other_app: AppType,
)
    ensures
        m.insert((app, provider), (result, now))[(app, provider)] == (result, now),
        queried_at_of(m.insert((app, provider), (result, now)), (app, provider)) == Some(now),
        other_app != app ==> m.insert((app, provider), (result, now)).dom().contains((other_app, provider))
            == m.dom().contains((other_app, provider)),
        !m.insert((app, provider), (result, now)).remove((app, provider)).dom().contains((app, provider)),
{
}

impl<Q, R> UsageCache<Q, R> {
    pub closed spec fn wf(&self) -> bool {
        assoc_unique(self.subscription@) && assoc_unique(script_key_view(self.script@))
    }

    /// Cached quota per app.
    pub closed spec fn subscriptions(&self) -> Map<AppType, Q> {
        assoc_map(self.subscription@)
    }

    /// Cached script results per (app, provider id), with their query time.
    pub closed spec fn scripts(&self) -> Map<(AppType, Seq<char>), (R, i64)> {
        assoc_map(script_key_view(self.script@))
    }

    pub fn new() -> (r: Self)
        ensures
            r.wf(),
            r.subscriptions() == Map::<AppType, Q>::empty(),
            r.scripts() == Map::<(AppType, Seq<char>), (R, i64)>::empty(),
    {
        let r = UsageCache { subscription: Vec::new(), script: Vec::new() };
        proof {
            lemma_assoc_empty(r.subscription@);
            assert(script_key_view(r.script@) =~= Seq::<((AppType, Seq<char>), (R, i64))>::empty());
            lemma_assoc_empty(script_key_view(r.script@));
        }
        r
    }

    fn find_subscription(&self, app_type: &AppType) -> (r: Option<usize>)
        requires
            self.wf(),
        ensures
            match r {
                Some(i) => i < self.subscription@.len() && self.subscription@[i as int].0 == *app_type,
                None => !assoc_has(self.subscription@, *app_type),
            },
    {
        let mut i: usize = 0;
        while i < self.subscription.len()
            invariant
                i <= self.subscription@.len(),
                forall|j: int| 0 <= j < i ==> self.subscription@[j].0 != *app_type,
            decreases self.subscription.len() - i,
        {
            if self.subscription[i].0 == *app_type {
                return Some(i);
            }
            i = i + 1;
        }
        None
    }

    fn find_script(&self, app_type: &AppType, provider_id: &str) -> (r: Option<usize>)
        requires
            self.wf(),
        ensures
            match r {
                Some(i) => i < self.script@.len() && script_key_view(self.script@)[i as int].0
                    == (*app_type, provider_id@),
                None => !assoc_has(script_key_view(self.script@), (*app_type, provider_id@)),
            },
    {
        let mut i: usize = 0;
        while i < self.script.len()
            invariant
                i <= self.script@.len(),
                forall|j: int| 0 <= j < i ==> script_key_view(self.script@)[j].0 != (*app_type, provider_id@),
            decreases self.script.len() - i,
        {
            if self.script[i].0.0 == *app_type && str_eq(self.script[i].0.1.as_str(), provider_id) {
                return Some(i);
            }
            i = i + 1;
        }
        None
    }

    pub fn put_subscription(&mut self, app_type: AppType, quota: Q)
        requires
            old(self).wf(),
        ensures
            final(self).wf(),
            final(self).subscriptions() == old(self).subscriptions().insert(app_type, quota),
            final(self).scripts() == old(self).scripts(),
    {
        let ghost s = self.subscription@;
        match self.find_subscription(&app_type) {
            Some(i) => {
                proof {
                    lemma_assoc_update(s, i as int, quota);
                }
                self.subscription.set(i, (app_type, quota));
            },
            None => {
                proof {
                    lemma_assoc_push(s, app_type, quota);
                }
                self.subscription.push((app_type, quota));
            },
        }
    }

    /// Stores a script result queried at `now` (milliseconds).
    pub fn put_script_at(&mut self, app_type: AppType, provider_id: String, result: R, now: i64)
        requires
            old(self).wf(),
        ensures
            final(self).wf(),
            final(self).scripts() == old(self).scripts().insert((app_type, provider_id@), (result, now)),
            final(self).subscriptions() == old(self).subscriptions(),
    {
        let ghost s = self.script@;
        let ghost key = (app_type, provider_id@);
        match self.find_script(&app_type, provider_id.as_str()) {
            Some(i) => {
                proof {
                    lemma_assoc_update(script_key_view(s), i as int, (result, now));
                }
                self.script.set(i, ((app_type, provider_id), (result, now)));
                proof {
                    assert(script_key_view(self.script@) =~= script_key_view(s).update(
                        i as int,
                        (script_key_view(s)[i as int].0, (result, now)),
                    ));
                }
            },
            None => {
                proof {
                    lemma_assoc_push(script_key_view(s), key, (result, now));
                }
                self.script.push(((app_type, provider_id), (result, now)));
                proof {
                    assert(script_key_view(self.script@) =~= script_key_view(s).push((key, (result, now))));
                }
            },
        }
    }

    /// Stores a script result stamped with the current time.
    pub fn put_script(&mut self, app_type: AppType, provider_id: String, result: R)
        requires
            old(self).wf(),
        ensures
            final(self).wf(),
            exists|now: i64|
                final(self).scripts() == old(self).scripts().insert((app_type, provider_id@), (result, now)),
            final(self).subscriptions() == old(self).subscriptions(),
    {
        let now = now_millis();
        self.put_script_at(app_type, provider_id, result, now);
    }

    /// Lends the cached quota of `app_type` to `f` (no copy); `None` when absent.
    pub fn with_subscription<T, F: FnOnce(&Q) -> T>(&self, app_type: &AppType, f: F) -> (r: Option<T>)
        requires
            self.wf(),
            self.subscriptions().dom().contains(*app_type) ==> f.requires((&self.subscriptions()[*app_type],)),
        ensures
            match r {
                None => !self.subscriptions().dom().contains(*app_type),
                Some(t) => self.subscriptions().dom().contains(*app_type) && f.ensures(
                    (&self.subscriptions()[*app_type],),
                    t,
                ),
            },
    {
        match self.find_subscription(app_type) {
            Some(i) => {
                proof {
                    lemma_assoc_at(self.subscription@, i as int);
                }
                Some(f(&self.subscription[i].1))
            },
            None => None,
        }
    }

    /// Lends the cached result of `(app_type, provider_id)` to `f`; `None` when absent.
    pub fn with_script<T, F: FnOnce(&R) -> T>(&self, app_type: &AppType, provider_id: &str, f: F) -> (r: Option<T>)
        requires
            self.wf(),
            self.scripts().dom().contains((*app_type, provider_id@)) ==> f.requires(
                (&self.scripts()[(*app_type, provider_id@)].0,),
            ),
        ensures
            match r {
                None => !self.scripts().dom().contains((*app_type, provider_id@)),
                Some(t) => self.scripts().dom().contains((*app_type, provider_id@)) && f.ensures(
                    (&self.scripts()[(*app_type, provider_id@)].0,),
                    t,
                ),
            },
    {
        match self.find_script(app_type, provider_id) {
            Some(i) => {
                proof {
                    lemma_assoc_at(script_key_view(self.script@), i as int);
                }
                Some(f(&self.script[i].1.0))
            },
            None => None,
        }
    }

    /// When the cached result of `(app_type, provider_id)` was queried.
    pub fn script_queried_at(&self, app_type: &AppType, provider_id: &str) -> (r: Option<i64>)
        requires
            self.wf(),
        ensures
            r == queried_at_of(self.scripts(), (*app_type, provider_id@)),
    {
        match self.find_script(app_type, provider_id) {
            Some(i) => {
                proof {
                    lemma_assoc_at(script_key_view(self.script@), i as int);
                }
                Some(self.script[i].1.1)
            },
            None => None,
        }
    }

    /// Snapshot of every cached script result (with its query time).
    pub fn snapshot_scripts(&self) -> (r: Vec<UsageScriptSnapshot<R>>)
        where R: Clone,
        requires
            self.wf(),
        ensures
            r@.len() == self.scripts().dom().len(),
            forall|i: int| 0 <= i < r@.len() ==> {
                let key = ((#[trigger] r@[i]).app_type, r@[i].provider_id@);
                &&& self.scripts().dom().contains(key)
                &&& r@[i].queried_at == self.scripts()[key].1
                &&& vstd::pervasive::cloned(self.scripts()[key].0, r@[i].result)
            },
            forall|i: int, j: int| 0 <= i < j < r@.len() ==> ((#[trigger] r@[i]).app_type, r@[i].provider_id@)
                != ((#[trigger] r@[j]).app_type, r@[j].provider_id@),
            forall|key: (AppType, Seq<char>)| #[trigger] self.scripts().dom().contains(key) ==> exists|i: int|
                0 <= i < r@.len() && key == ((#[trigger] r@[i]).app_type, r@[i].provider_id@),
    {
        let mut out: Vec<UsageScriptSnapshot<R>> = Vec::new();
        let mut i: usize = 0;
        proof {
            crate::assoc::lemma_assoc_size(script_key_view(self.script@));
        }
        while i < self.script.len()
            invariant
                self.wf(),
                i <= self.script@.len(),
                out@.len() == i,
                forall|m: int| 0 <= m < i ==> {
                    &&& ((#[trigger] out@[m]).app_type, out@[m].provider_id@) == script_key_view(self.script@)[m].0
                    &&& out@[m].queried_at == self.script@[m].1.1
                    &&& vstd::pervasive::cloned(self.script@[m].1.0, out@[m].result)
                },
            decreases self.script.len() - i,
        {
            let e = &self.script[i];
            let snap = UsageScriptSnapshot {
                app_type: e.0.0,
                provider_id: e.0.1.clone(),
                result: e.1.0.clone(),
                queried_at: e.1.1,
            };
            out.push(snap);
            i = i + 1;
        }
        proof {
            assert forall|m: int| 0 <= m < out@.len() implies {
                let key = ((#[trigger] out@[m]).app_type, out@[m].provider_id@);
                &&& self.scripts().dom().contains(key)
                &&& out@[m].queried_at == self.scripts()[key].1
                &&& vstd::pervasive::cloned(self.scripts()[key].0, out@[m].result)
            } by {
                lemma_assoc_at(script_key_view(self.script@), m);
            }
            assert forall|key: (AppType, Seq<char>)| #[trigger] self.scripts().dom().contains(key) implies exists|i: int|
                0 <= i < out@.len() && key == ((#[trigger] out@[i]).app_type, out@[i].provider_id@) by {
                let sv = script_key_view(self.script@);
                let m = choose|m: int| 0 <= m < sv.len() && #[trigger] sv[m].0 == key;
                assert(((out@[m]).app_type, out@[m].provider_id@) == sv[m].0);
            }
        }
        out
    }

    pub fn invalidate_script(&mut self, app_type: &AppType, provider_id: &str)
        requires
            old(self).wf(),
        ensures
            final(self).wf(),
            final(self).scripts() == old(self).scripts().remove((*app_type, provider_id@)),
            final(self).subscriptions() == old(self).subscriptions(),
    {
        let ghost s = self.script@;
        match self.find_script(app_type, provider_id) {
            Some(i) => {
                proof {
                    lemma_assoc_remove(script_key_view(s), i as int);
                }
                self.script.remove(i);
                proof {
                    assert(script_key_view(self.script@) =~= script_key_view(s).remove(i as int));
                }
            },
            None => {
                proof {
                    assert(self.scripts() =~= old(self).scripts().remove((*app_type, provider_id@)));
                }
            },
        }
    }

    pub fn invalidate_subscription(&mut self, app_type: &AppType)
        requires
            old(self).wf(),
        ensures
            final(self).wf(),
            final(self).subscriptions() == old(self).subscriptions().remove(*app_type),
            final(self).scripts() == old(self).scripts(),
    {
        let ghost s = self.subscription@;
        match self.find_subscription(app_type) {
            Some(i) => {
                proof {
                    lemma_assoc_remove(s, i as int);
                }
                self.subscription.remove(i);
            },
            None => {
                proof {
                    assert(self.subscriptions() =~= old(self).subscriptions().remove(*app_type));
                }
            },
        }
    }

    /// Drops every cached quota and script result (after a restore).
    pub fn invalidate_all(&mut self)
        requires
            old(self).wf(),
        ensures
            final(self).wf(),
            final(self).subscriptions() == Map::<AppType, Q>::empty(),
            final(self).scripts() == Map::<(AppType, Seq<char>), (R, i64)>::empty(),
    {
        self.subscription.clear();
        self.script.clear();
        proof {
            lemma_assoc_empty(self.subscription@);
            assert(script_key_view(self.script@) =~= Seq::<((AppType, Seq<char>), (R, i64))>::empty());
            lemma_assoc_empty(script_key_view(self.script@));
        }
    }
}

} // verus!
