//! Where a request's route is applied: prefixed model values lock the request
//! to a provider group and bind the session to it, `<prefix>default` drops the
//! binding, and a plain model follows the session's binding.
use vstd::prelude::*;
use crate::app_config::AppType;
use crate::json::{set_member, spec_get_str, JsonValue, JsonView, entries_insert};
use crate::route_prefix::{
    ascii_eq_ignore_case, is_first_minimal, parse_route_target, resolve_route_in,
    route_candidates, spec_parse_route_target, evicted_least_recent, unmatched_route_key_message, ParsedRoute, ProxyError, RouteBindingStore,
    RouteProvider, RESERVED_ROUTE_KEY,
};
use crate::text::{eq_ignore_ascii_case, to_owned_string, concat_str, str_chars};

verus! {

/// Per-request marker: the model was named explicitly (`<prefix><key>:<model>`)
/// and goes upstream as written, without the group's default-model fallback.
#[derive(Debug, Clone, Copy)]
pub struct RoutePassthrough;

/// What routing reads and changes of a request.
#[derive(Debug)]
pub struct RouteRequestContext {
    pub app_type: AppType,
    pub session_id: String,
    /// The session id came from the client (a generated one changes with every
    /// request, so binding it is useless).
    pub session_client_provided: bool,
    pub current_provider_id: String,
    pub provider: RouteProvider,
    pub providers: Vec<RouteProvider>,
}

/// What to do with a request, decided from its body alone.
#[derive(Debug)]
pub enum RoutePlan {
    /// Not an Anthropic client, or no string `model`: nothing to do.
    Skip,
    /// No route prefix: follow the session's binding.
    Sticky,
    /// `<prefix>default`: drop the session's binding.
    Unbind,
    /// A route key (and perhaps a model) to apply.
    Route(ParsedRoute),
}

pub open spec fn is_anthropic_app(a: AppType) -> bool {
    a == AppType::AnthropicCli || a == AppType::AnthropicDesktop
}

/// The route that `body` asks for, when the app is routed at all.
pub open spec fn requested_route(app: AppType, body: JsonView, prefix: Seq<char>) -> Option<
    Option<(Seq<char>, Option<Seq<char>>)>,
> {
    if !is_anthropic_app(app) {
        None
    } else {
        match spec_get_str(body, "model"@) {
            None => None,
            Some(m) => Some(spec_parse_route_target(m, prefix)),
        }
    }
}

/// Decides what `apply_route` does with a request.
pub fn plan_route(app_type: AppType, body: &JsonValue, prefix: &str) -> (r: RoutePlan)
    ensures
        match r {
            RoutePlan::Skip => requested_route(app_type, body@, prefix@) is None,
            RoutePlan::Sticky => requested_route(app_type, body@, prefix@) == Some(
                None::<(Seq<char>, Option<Seq<char>>)>,
            ),
            RoutePlan::Unbind => requested_route(app_type, body@, prefix@) matches Some(Some(p))
                && ascii_eq_ignore_case(p.0, RESERVED_ROUTE_KEY@),
            RoutePlan::Route(p) => requested_route(app_type, body@, prefix@) == Some(Some(p@))
                && !ascii_eq_ignore_case(p@.0, RESERVED_ROUTE_KEY@),
        },
{
    if !(app_type == AppType::AnthropicCli || app_type == AppType::AnthropicDesktop) {
        return RoutePlan::Skip;
    }
    let model = match body.get_str("model") {
        Some(m) => m,
        None => return RoutePlan::Skip,
    };
    match parse_route_target(model.as_str(), prefix) {
        None => RoutePlan::Sticky,
        Some(parsed) => {
            if eq_ignore_ascii_case(parsed.key.as_str(), RESERVED_ROUTE_KEY) {
                RoutePlan::Unbind
            } else {
                RoutePlan::Route(parsed)
            }
        },
    }
}

/// `ctx` after it was locked to `target`.
pub open spec fn locked_to(before: RouteRequestContext, after: RouteRequestContext, target: RouteProvider) -> bool {
    &&& after.app_type == before.app_type
    &&& after.session_id == before.session_id
    &&& after.session_client_provided == before.session_client_provided
    &&& after.current_provider_id@ == target.id@
    &&& after.provider == target
    &&& after.providers@ == seq![target]
}

/// Locks a request to one provider group: the current provider, the provider
/// and the whole failover chain become that group, so the forwarder neither
/// switches away from it nor fails over.
pub fn lock_context_to_provider(ctx: &mut RouteRequestContext, target: RouteProvider)
    ensures
        locked_to(*old(ctx), *final(ctx), target),
{
    ctx.current_provider_id = target.id.clone();
    ctx.provider = target.copy();
    let mut chain: Vec<RouteProvider> = Vec::new();
    chain.push(target);
    ctx.providers = chain;
}

/// The message of a routed request whose group has no default model.
pub open spec fn missing_default_model_message(name: Seq<char>) -> Seq<char> {
    "路由分组「"@ + name + "」未配置默认模型（env.ANTHROPIC_MODEL），无法处理无显式模型的路由请求"@
}

/// The group's default model (`env.ANTHROPIC_MODEL`) when set and not empty.
pub open spec fn group_default_model(p: RouteProvider) -> Option<Seq<char>> {
    match p.mapping.default_model {
        Some(m) => if m@.len() > 0 { Some(m@) } else { None },
        None => None,
    }
}

/// What following the session's binding does (see `sticky_route_lookup_at`).
pub open spec fn sticky_effect(
    c0: RouteRequestContext,
    c1: RouteRequestContext,
    s0: RouteBindingStore,
    s1: RouteBindingStore,
    providers: Result<Vec<RouteProvider>, String>,
    now: u64,
    r: Result<(), ProxyError>,
) -> bool {
    let sid = c0.session_id@;
    let before = s0@;
    if !c0.session_client_provided || !before.dom().contains(sid) {
        r is Ok && s1@ == before && c1 == c0
    } else if now - before[sid].1 > s0.ttl_spec() {
        r is Ok && s1@ == before.remove(sid) && c1 == c0
    } else {
        let key = before[sid].0;
        let refreshed = before.insert(sid, (key, now));
        match providers {
            Err(e) => r matches Err(ProxyError::DatabaseError(m)) && m@ == e@ && s1@ == refreshed
                && c1 == c0,
            Ok(ps) => {
                let c = route_candidates(ps@, key);
                if c.len() == 0 {
                    r is Ok && s1@ == refreshed.remove(sid) && c1 == c0
                } else {
                    r is Ok && s1@ == refreshed && exists|i: int|
                        is_first_minimal(c, i) && locked_to(c0, c1, c[i])
                }
            },
        }
    }
}

/// Follows the session's binding (at time `now` of the binding store): an
/// expired binding is dropped, a live one is refreshed and locks the request to
/// its group; a binding whose group no longer answers to the key is dropped
/// and the request stays with the default group.
pub fn sticky_route_lookup_at(
    bindings: &mut RouteBindingStore,
    ctx: &mut RouteRequestContext,
    providers: &Result<Vec<RouteProvider>, String>,
    now: u64,
) -> (r: Result<(), ProxyError>)
    requires
        old(bindings).wf(),
    ensures
        final(bindings).wf(),
        final(bindings).capacity_spec() == old(bindings).capacity_spec(),
        final(bindings).ttl_spec() == old(bindings).ttl_spec(),
        sticky_effect(*old(ctx), *final(ctx), *old(bindings), *final(bindings), *providers, now, r),
{
    if !ctx.session_client_provided {
        return Ok(());
    }
    let key = match bindings.lookup_at(ctx.session_id.as_str(), now) {
        Some(k) => k,
        None => return Ok(()),
    };
    let ps = match providers {
        Ok(ps) => ps,
        Err(e) => return Err(ProxyError::DatabaseError(e.clone())),
    };
    match resolve_route_in(ps, key.as_str()) {
        Ok(target) => {
            lock_context_to_provider(ctx, target);
            Ok(())
        },
        Err(_) => {
            bindings.unbind(ctx.session_id.as_str());
            Ok(())
        },
    }
}

/// `after` is `before` after `bind_at(sid, key, now)`.
pub open spec fn bound_at(
    before: RouteBindingStore,
    after: RouteBindingStore,
    sid: Seq<char>,
    key: Seq<char>,
    now: u64,
) -> bool {
    let grown_map = before@.insert(sid, (key, now));
    let grown = if before@.dom().contains(sid) {
        before.count()
    } else {
        before.count() + 1
    };
    &&& after@.submap_of(grown_map)
    &&& evicted_least_recent(grown_map, after@)
    &&& after.count() == if grown > before.capacity_spec() {
        before.capacity_spec()
    } else {
        grown
    }
    &&& before.capacity_spec() >= 1 && (forall|x: Seq<char>|
        #[trigger] before@.dom().contains(x) ==> before@[x].1 < now) ==> after@.dom().contains(
        sid,
    ) && after@[sid] == (key, now)
}

/// The body with `model` set to `m`.
pub open spec fn with_model(body: JsonView, m: Seq<char>) -> JsonView {
    JsonView::Object(entries_insert(body->Object_0, "model"@, JsonView::Str(m)))
}

/// What applying the route key `key` (with an optional explicit model) does.
pub open spec fn parsed_route_effect(
    c0: RouteRequestContext,
    c1: RouteRequestContext,
    b0: JsonView,
    b1: JsonView,
    s0: RouteBindingStore,
    s1: RouteBindingStore,
    key: Seq<char>,
    model_override: Option<Seq<char>>,
    providers: Result<Vec<RouteProvider>, String>,
    now: u64,
    r: Result<bool, ProxyError>,
) -> bool {
    match providers {
        Err(e) => r matches Err(ProxyError::DatabaseError(m)) && m@ == e@ && c1 == c0 && b1 == b0
            && s1@ == s0@,
        Ok(ps) => {
            let c = route_candidates(ps@, key);
            if c.len() == 0 {
                r matches Err(ProxyError::ConfigError(m)) && m@ == unmatched_route_key_message(
                    ps@,
                    key,
                ) && c1 == c0 && b1 == b0 && s1@ == s0@
            } else {
                exists|i: int|
                    #![trigger c[i]]
                    is_first_minimal(c, i) && {
                        let t = c[i];
                        &&& if c0.session_client_provided {
                            bound_at(s0, s1, c0.session_id@, key, now)
                        } else {
                            s1@ == s0@
                        }
                        &&& match model_override {
                            Some(mo) => r == Ok::<bool, ProxyError>(true) && b1 == with_model(b0, mo)
                                && locked_to(c0, c1, t),
                            None => match group_default_model(t) {
                                None => r matches Err(ProxyError::ConfigError(m)) && m@
                                    == missing_default_model_message(t.name@) && c1 == c0 && b1
                                    == b0,
                                Some(d) => r == Ok::<bool, ProxyError>(false) && b1 == with_model(b0, d)
                                    && locked_to(c0, c1, t),
                            },
                        }
                    }
            }
        },
    }
}

fn apply_parsed_route(
    bindings: &mut RouteBindingStore,
    ctx: &mut RouteRequestContext,
    body: &mut JsonValue,
    parsed: ParsedRoute,
    providers: &Result<Vec<RouteProvider>, String>,
    now: u64,
) -> (r: Result<bool, ProxyError>)
    requires
        old(bindings).wf(),
        old(body)@ is Object,
    ensures
        final(bindings).wf(),
        final(bindings).capacity_spec() == old(bindings).capacity_spec(),
        final(bindings).ttl_spec() == old(bindings).ttl_spec(),
        parsed_route_effect(
            *old(ctx),
            *final(ctx),
            old(body)@,
            final(body)@,
            *old(bindings),
            *final(bindings),
            parsed@.0,
            parsed@.1,
            *providers,
            now,
            r,
        ),
{
    let ps = match providers {
        Ok(ps) => ps,
        Err(e) => return Err(ProxyError::DatabaseError(e.clone())),
    };
    let target = match resolve_route_in(ps, parsed.key.as_str()) {
        Ok(t) => t,
        Err(e) => return Err(e),
    };
    let ghost c = route_candidates(ps@, parsed@.0);
    let ghost i = choose|i: int| is_first_minimal(c, i) && target == c[i];
    if ctx.session_client_provided {
        bindings.bind_at(ctx.session_id.as_str(), parsed.key.as_str(), now);
    }
    let passthrough = match parsed.model_override {
        Some(mo) => {
            set_member(body, to_owned_string("model"), JsonValue::String(mo));
            true
        },
        None => {
            let default_model = match &target.mapping.default_model {
                Some(m) => if !m.as_str().is_empty() { Some(m.clone()) } else { None },
                None => None,
            };
            match default_model {
                Some(d) => {
                    set_member(body, to_owned_string("model"), JsonValue::String(d));
                    false
                },
                None => {
                    let msg = concat_str(
                        concat_str("路由分组「", target.name.as_str()).as_str(),
                        "」未配置默认模型（env.ANTHROPIC_MODEL），无法处理无显式模型的路由请求",
                    );
                    assert(is_first_minimal(c, i) && target == c[i]);
                    return Err(ProxyError::ConfigError(msg));
                },
            }
        },
    };
    lock_context_to_provider(ctx, target);
    assert(is_first_minimal(c, i) && target == c[i]);
    Ok(passthrough)
}

/// What `apply_route` does to the request, its body and the binding store at
/// time `now` of the store.
pub open spec fn route_effect(
    c0: RouteRequestContext,
    c1: RouteRequestContext,
    b0: JsonView,
    b1: JsonView,
    s0: RouteBindingStore,
    s1: RouteBindingStore,
    prefix: Seq<char>,
    providers: Result<Vec<RouteProvider>, String>,
    now: u64,
    r: Result<bool, ProxyError>,
) -> bool {
    let sid = c0.session_id@;
    match requested_route(c0.app_type, b0, prefix) {
        None => r == Ok::<bool, ProxyError>(false) && c1 == c0 && b1 == b0 && s1@ == s0@,
        Some(None) => b1 == b0 && !(r == Ok::<bool, ProxyError>(true)) && sticky_effect(
            c0,
            c1,
            s0,
            s1,
            providers,
            now,
            match r {
                Ok(_) => Ok(()),
                Err(e) => Err(e),
            },
        ),
        Some(Some(p)) => if ascii_eq_ignore_case(p.0, RESERVED_ROUTE_KEY@) {
            r == Ok::<bool, ProxyError>(false) && c1 == c0 && b1 == b0 && s1@ == s0@.remove(sid)
        } else {
            parsed_route_effect(c0, c1, b0, b1, s0, s1, p.0, p.1, providers, now, r)
        },
    }
}

/// Applies the route a request asks for at time `now` of the binding store.
/// `Ok(true)` means the model was named explicitly and must pass through
/// unchanged (`RoutePassthrough`).
pub fn apply_route_at(
    ctx: &mut RouteRequestContext,
    body: &mut JsonValue,
    prefix: &str,
    bindings: &mut RouteBindingStore,
    providers: &Result<Vec<RouteProvider>, String>,
    now: u64,
) -> (r: Result<bool, ProxyError>)
    requires
        old(bindings).wf(),
    ensures
        final(bindings).wf(),
        final(bindings).capacity_spec() == old(bindings).capacity_spec(),
        final(bindings).ttl_spec() == old(bindings).ttl_spec(),
        route_effect(
            *old(ctx),
            *final(ctx),
            old(body)@,
            final(body)@,
            *old(bindings),
            *final(bindings),
            prefix@,
            *providers,
            now,
            r,
        ),
{
    let plan = plan_route(ctx.app_type, body, prefix);
    match plan {
        RoutePlan::Skip => Ok(false),
        RoutePlan::Sticky => match sticky_route_lookup_at(bindings, ctx, providers, now) {
            Ok(()) => Ok(false),
            Err(e) => Err(e),
        },
        RoutePlan::Unbind => {
            bindings.unbind(ctx.session_id.as_str());
            Ok(false)
        },
        RoutePlan::Route(parsed) => apply_parsed_route(bindings, ctx, body, parsed, providers, now),
    }
}

/// `apply_route_at` at the binding store's current time.
pub fn apply_route(
    ctx: &mut RouteRequestContext,
    body: &mut JsonValue,
    prefix: &str,
    bindings: &mut RouteBindingStore,
    providers: &Result<Vec<RouteProvider>, String>,
) -> (r: Result<bool, ProxyError>)
    requires
        old(bindings).wf(),
    ensures
        final(bindings).wf(),
        exists|now: u64|
            route_effect(
                *old(ctx),
                *final(ctx),
                old(body)@,
                final(body)@,
                *old(bindings),
                *final(bindings),
                prefix@,
                *providers,
                now,
                r,
            ),
{
    let now = bindings.now();
    apply_route_at(ctx, body, prefix, bindings, providers, now)
}

} // verus!
