//! MCP servers in the live configuration of ZCode (`cli/config.json`,
//! `mcp.servers.<id>`), WorkBuddy (`mcp.json`, `mcpServers.<id>`) and DSH
//! (plugin entries of the profile patch file), and their import into the
//! unified server table.
use vstd::prelude::*;
use crate::assoc::{assoc_unique, assoc_has, assoc_map, lemma_assoc_at, lemma_assoc_update, lemma_assoc_push, lemma_assoc_empty};
use crate::json::{
    JsonValue, JsonView, entries_view, entries_get, entries_insert, entries_remove, key_index,
    lemma_object_view, object_insert, object_remove, copy_if_present, find_key, json_parse,
    spec_json_parse, spec_get, spec_get_str, spec_as_bool, keys_unique, law_get_after_insert,
    json_keys_unique, lemma_member_keys_unique,
    law_get_after_remove,
};
use crate::text::{str_eq, to_owned_string, concat_str, push_str};
use crate::dsh_patch::{copy_keys, spec_upsert, spec_remove, named_targets, mcp_client_entries, DshPatchError};
use crate::yaml::{YamlValue, YamlView, yitems_view};

verus! {

/// Errors of the live configuration logic.
#[derive(Debug)]
pub enum McpError {
    Config(String),
    Validation(String),
}

/// Whose live configuration a text is.
#[derive(Debug, Clone, Copy, PartialEq, Eq, Structural)]
pub enum LiveConfigKind {
    Zcode,
    WorkBuddy,
}

pub open spec fn parse_failure_prefix(k: LiveConfigKind) -> Seq<char> {
    match k {
        LiveConfigKind::Zcode => "Failed to parse ZCode config: "@,
        LiveConfigKind::WorkBuddy => "Failed to parse WorkBuddy config: "@,
    }
}

pub open spec fn root_not_object_prefix(k: LiveConfigKind) -> Seq<char> {
    match k {
        LiveConfigKind::Zcode => "ZCode 配置文件根节点必须是 JSON 对象: "@,
        LiveConfigKind::WorkBuddy => "WorkBuddy 配置文件根节点必须是 JSON 对象: "@,
    }
}

/// Reading a live config: a missing file is `{}`; the text must be JSON
/// whose root is an object (the file is never rebuilt over user content).
pub open spec fn spec_read_config(k: LiveConfigKind, content: Option<Seq<char>>, path: Seq<char>) -> Result<JsonView, Seq<char>> {
    match content {
        None => Ok(JsonView::Object(Seq::empty())),
        Some(text) => match spec_json_parse(text) {
            Err(e) => Err(parse_failure_prefix(k) + path + ": "@ + e),
            Ok(v) => if v is Object {
                Ok(v)
            } else {
                Err(root_not_object_prefix(k) + path)
            },
        },
    }
}

pub open spec fn opt_text(o: Option<&str>) -> Option<Seq<char>> {
    match o {
        Some(s) => Some(s@),
        None => None,
    }
}

fn empty_object() -> (r: JsonValue)
    ensures
        r@ == JsonView::Object(Seq::empty()),
{
    let es: Vec<(String, JsonValue)> = Vec::new();
    proof {
        lemma_object_view(es);
        assert(entries_view(es@) =~= Seq::<(Seq<char>, JsonView)>::empty());
    }
    JsonValue::Object(es)
}

/// Reads a live config (`content` is `None` when the file does not exist).
pub fn read_config(k: LiveConfigKind, content: Option<&str>, path: &str) -> (r: Result<JsonValue, McpError>)
    ensures
        match r {
            Ok(v) => spec_read_config(k, opt_text(content), path@) == Ok::<JsonView, Seq<char>>(v@),
            Err(McpError::Config(m)) => spec_read_config(k, opt_text(content), path@) == Err::<JsonView, Seq<char>>(m@),
            Err(McpError::Validation(_)) => false,
        },
{
    let text = match content {
        None => return Ok(empty_object()),
        Some(t) => t,
    };
    match json_parse(text) {
        Err(e) => {
            let mut m = to_owned_string(match k {
                LiveConfigKind::Zcode => "Failed to parse ZCode config: ",
                LiveConfigKind::WorkBuddy => "Failed to parse WorkBuddy config: ",
            });
            push_str(&mut m, path);
            push_str(&mut m, ": ");
            push_str(&mut m, e.as_str());
            Err(McpError::Config(m))
        },
        Ok(v) => if v.is_object() {
            Ok(v)
        } else {
            let mut m = to_owned_string(match k {
                LiveConfigKind::Zcode => "ZCode 配置文件根节点必须是 JSON 对象: ",
                LiveConfigKind::WorkBuddy => "WorkBuddy 配置文件根节点必须是 JSON 对象: ",
            });
            push_str(&mut m, path);
            Err(McpError::Config(m))
        },
    }
}

/// The members of an object value (empty otherwise).
pub open spec fn members(v: Option<JsonView>) -> Seq<(Seq<char>, JsonView)> {
    match v {
        Some(JsonView::Object(es)) => es,
        _ => Seq::empty(),
    }
}

/// A copy of the members of `v` when it is an object.
fn members_copy(v: Option<&JsonValue>) -> (r: Vec<(String, JsonValue)>)
    ensures
        entries_view(r@) == members(match v {
            Some(x) => Some(x@),
            None => None,
        }),
{
    match v {
        Some(JsonValue::Object(es)) => {
            proof {
                lemma_object_view(*es);
            }
            let mut out: Vec<(String, JsonValue)> = Vec::new();
            let mut i: usize = 0;
            while i < es.len()
                invariant
                    i <= es@.len(),
                    entries_view(out@) == entries_view(es@).take(i as int),
                decreases es.len() - i,
            {
                let ghost prev = entries_view(out@);
                let k = es[i].0.clone();
                let v = es[i].1.deep_copy();
                out.push((k, v));
                assert(entries_view(out@) =~= prev.push((es@[i as int].0@, es@[i as int].1@)));
                assert(entries_view(es@).take(i + 1) =~= entries_view(es@).take(i as int).push(
                    (es@[i as int].0@, es@[i as int].1@),
                ));
                i = i + 1;
            }
            assert(entries_view(es@).take(es@.len() as int) =~= entries_view(es@));
            out
        },
        _ => {
            let out: Vec<(String, JsonValue)> = Vec::new();
            assert(entries_view(out@) =~= Seq::<(Seq<char>, JsonView)>::empty());
            out
        },
    }
}

pub open spec fn pair_views(v: Seq<(String, JsonValue)>) -> Seq<(Seq<char>, JsonView)> {
    entries_view(v)
}

// ---------------------------------------------------------------------------
// ZCode: `mcp.servers`
// ---------------------------------------------------------------------------

/// `mcp.servers` of a ZCode config, in order (empty unless both are objects).
pub open spec fn zcode_servers_v(config: JsonView) -> Seq<(Seq<char>, JsonView)> {
    match spec_get(config, "mcp"@) {
        Some(m) => members(spec_get(m, "servers"@)),
        None => Seq::empty(),
    }
}

/// The MCP servers of a ZCode config.
pub fn get_mcp_servers(config: &JsonValue) -> (r: Vec<(String, JsonValue)>)
    ensures
        entries_view(r@) == zcode_servers_v(config@),
{
    match config.get("mcp") {
        Some(m) => members_copy(m.get("servers")),
        None => members_copy(None),
    }
}

/// Writing `mcp.servers.<id>`: `mcp` and `mcp.servers` become empty objects
/// first when they are missing or not objects; other members stay.
pub open spec fn zcode_set_v(config: JsonView, id: Seq<char>, spec: JsonView) -> JsonView {
    let m0 = members(spec_get(config, "mcp"@));
    let s0 = members(entries_get(m0, "servers"@));
    JsonView::Object(
        entries_insert(
            config->Object_0,
            "mcp"@,
            JsonView::Object(entries_insert(m0, "servers"@, JsonView::Object(entries_insert(s0, id, spec)))),
        ),
    )
}

fn object_of(es: Vec<(String, JsonValue)>) -> (r: JsonValue)
    ensures
        r@ == JsonView::Object(entries_view(es@)),
{
    proof {
        lemma_object_view(es);
    }
    JsonValue::Object(es)
}

fn take_members(config: &mut JsonValue) -> (r: Vec<(String, JsonValue)>)
    requires
        old(config)@ is Object,
    ensures
        entries_view(r@) == old(config)@->Object_0,
{
    let mut taken = JsonValue::Null;
    std::mem::swap(&mut taken, config);
    match taken {
        JsonValue::Object(es) => {
            proof {
                lemma_object_view(es);
            }
            es
        },
        _ => {
            assert(false);
            Vec::new()
        },
    }
}

/// Writes server `id` into a ZCode config (see `zcode_set_v`).
pub fn set_mcp_server(config: &mut JsonValue, id: &str, spec: JsonValue)
    requires
        old(config)@ is Object,
    ensures
        final(config)@ == zcode_set_v(old(config)@, id@, spec@),
{
    let m0 = match config.get("mcp") {
        Some(m) => members_copy(Some(m)),
        None => members_copy(None),
    };
    let s0 = match find_key(&m0, "servers") {
        Some(j) => members_copy(Some(&m0[j].1)),
        None => members_copy(None),
    };
    proof {
        crate::json::lemma_entries_get_find(m0@, "servers"@);
    }
    let mut s1 = s0;
    object_insert(&mut s1, to_owned_string(id), spec);
    let mut m1 = m0;
    object_insert(&mut m1, to_owned_string("servers"), object_of(s1));
    let mut es = take_members(config);
    object_insert(&mut es, to_owned_string("mcp"), object_of(m1));
    *config = object_of(es);
}

/// Removing `mcp.servers.<id>` (when both are objects; the last server
/// takes the freed place, as `serde_json::Map::remove` does).
pub open spec fn zcode_remove_v(config: JsonView, id: Seq<char>) -> JsonView {
    match spec_get(config, "mcp"@) {
        Some(JsonView::Object(m0)) => match entries_get(m0, "servers"@) {
            Some(JsonView::Object(s0)) => JsonView::Object(
                entries_insert(
                    config->Object_0,
                    "mcp"@,
                    JsonView::Object(entries_insert(m0, "servers"@, JsonView::Object(entries_remove(s0, id)))),
                ),
            ),
            _ => config,
        },
        _ => config,
    }
}

/// Removes server `id` from a ZCode config (see `zcode_remove_v`).
pub fn remove_mcp_server(config: &mut JsonValue, id: &str)
    requires
        old(config)@ is Object,
    ensures
        final(config)@ == zcode_remove_v(old(config)@, id@),
{
    let is_obj = match config.get("mcp") {
        Some(m) => match m.get("servers") {
            Some(s) => s.is_object(),
            None => false,
        },
        None => false,
    };
    if !is_obj {
        return;
    }
    let m0 = members_copy(config.get("mcp"));
    let s0 = match find_key(&m0, "servers") {
        Some(j) => members_copy(Some(&m0[j].1)),
        None => members_copy(None),
    };
    proof {
        crate::json::lemma_entries_get_find(m0@, "servers"@);
    }
    let mut s1 = s0;
    object_remove(&mut s1, id);
    let mut m1 = m0;
    object_insert(&mut m1, to_owned_string("servers"), object_of(s1));
    let mut es = take_members(config);
    object_insert(&mut es, to_owned_string("mcp"), object_of(m1));
    *config = object_of(es);
}

/// Read after write on a ZCode config: the server just written is read back
/// as written, the other servers are read as before, and the config's other
/// members are untouched.
pub proof fn law_zcode_set_then_get(config: JsonView, id: Seq<char>, spec: JsonView, other_id: Seq<char>, member: Seq<char>)
    requires
        config is Object,
    ensures
        entries_get(zcode_servers_v(zcode_set_v(config, id, spec)), id) == Some(spec),
        other_id != id ==> entries_get(zcode_servers_v(zcode_set_v(config, id, spec)), other_id) == entries_get(
            zcode_servers_v(config),
            other_id,
        ),
        member != "mcp"@ ==> spec_get(zcode_set_v(config, id, spec), member) == spec_get(config, member),
{
    let m0 = members(spec_get(config, "mcp"@));
    let s0 = members(entries_get(m0, "servers"@));
    let s1 = entries_insert(s0, id, spec);
    let m1 = entries_insert(m0, "servers"@, JsonView::Object(s1));
    law_get_after_insert(config->Object_0, "mcp"@, JsonView::Object(m1), member);
    law_get_after_insert(m0, "servers"@, JsonView::Object(s1), "servers"@);
    law_get_after_insert(s0, id, spec, other_id);
    assert(zcode_servers_v(zcode_set_v(config, id, spec)) == s1);
    assert(zcode_servers_v(config) == s0);
}

/// In a config whose objects hold each key once (as `parse_json` gives
/// them), the servers hold each name once.
pub proof fn lemma_parsed_servers_unique(config: JsonView)
    requires
        json_keys_unique(config),
    ensures
        keys_unique(zcode_servers_v(config)),
{
    match config {
        JsonView::Object(es) => {
            crate::json::lemma_key_index(es, "mcp"@);
            match key_index(es, "mcp"@) {
                Some(i) => {
                    lemma_member_keys_unique(es, i);
                    match es[i].1 {
                        JsonView::Object(ms) => {
                            crate::json::lemma_key_index(ms, "servers"@);
                            match key_index(ms, "servers"@) {
                                Some(j) => {
                                    lemma_member_keys_unique(ms, j);
                                    match ms[j].1 {
                                        JsonView::Object(ss) => {
                                            lemma_member_keys_unique_top(ss);
                                        },
                                        _ => {},
                                    }
                                },
                                None => {},
                            }
                        },
                        _ => {},
                    }
                },
                None => {},
            }
        },
        _ => {},
    }
}

proof fn lemma_member_keys_unique_top(es: Seq<(Seq<char>, JsonView)>)
    requires
        json_keys_unique(JsonView::Object(es)),
    ensures
        keys_unique(es),
{
}

/// A removed ZCode server is gone and the others stay, for a config as
/// `parse_json` gives it; the config's other members are untouched.
pub proof fn law_parsed_zcode_remove_then_get(config: JsonView, id: Seq<char>, other_id: Seq<char>, member: Seq<char>)
    requires
        config is Object,
        json_keys_unique(config),
    ensures
        entries_get(zcode_servers_v(zcode_remove_v(config, id)), id) is None,
        other_id != id ==> entries_get(zcode_servers_v(zcode_remove_v(config, id)), other_id) == entries_get(
            zcode_servers_v(config),
            other_id,
        ),
        member != "mcp"@ ==> spec_get(zcode_remove_v(config, id), member) == spec_get(config, member),
{
    lemma_parsed_servers_unique(config);
    law_zcode_remove_then_get(config, id, other_id, member);
}

/// A removed ZCode server is gone and the others stay (servers as parsed,
/// without repeated names); the config's other members are untouched.
pub proof fn law_zcode_remove_then_get(config: JsonView, id: Seq<char>, other_id: Seq<char>, member: Seq<char>)
    requires
        config is Object,
        keys_unique(zcode_servers_v(config)),
    ensures
        entries_get(zcode_servers_v(zcode_remove_v(config, id)), id) is None,
        other_id != id ==> entries_get(zcode_servers_v(zcode_remove_v(config, id)), other_id) == entries_get(
            zcode_servers_v(config),
            other_id,
        ),
        member != "mcp"@ ==> spec_get(zcode_remove_v(config, id), member) == spec_get(config, member),
{
    match spec_get(config, "mcp"@) {
        Some(JsonView::Object(m0)) => match entries_get(m0, "servers"@) {
            Some(JsonView::Object(s0)) => {
                let s1 = entries_remove(s0, id);
                let m1 = entries_insert(m0, "servers"@, JsonView::Object(s1));
                law_get_after_insert(config->Object_0, "mcp"@, JsonView::Object(m1), member);
                law_get_after_insert(m0, "servers"@, JsonView::Object(s1), "servers"@);
                law_get_after_remove(s0, id, other_id);
                assert(zcode_servers_v(zcode_remove_v(config, id)) == s1);
            },
            _ => {},
        },
        _ => {},
    }
}

// ---------------------------------------------------------------------------
// WorkBuddy: `mcpServers`
// ---------------------------------------------------------------------------

pub open spec fn workbuddy_servers_v(config: JsonView) -> Seq<(Seq<char>, JsonView)> {
    members(spec_get(config, "mcpServers"@))
}

/// The MCP servers of a WorkBuddy config.
pub fn workbuddy_get_mcp_servers(config: &JsonValue) -> (r: Vec<(String, JsonValue)>)
    ensures
        entries_view(r@) == workbuddy_servers_v(config@),
{
    members_copy(config.get("mcpServers"))
}

pub open spec fn workbuddy_set_v(config: JsonView, id: Seq<char>, spec: JsonView) -> JsonView {
    let s0 = members(spec_get(config, "mcpServers"@));
    JsonView::Object(entries_insert(config->Object_0, "mcpServers"@, JsonView::Object(entries_insert(s0, id, spec))))
}

/// Writes `mcpServers.<id>` (an `mcpServers` that is not an object becomes
/// an empty object first).
pub fn workbuddy_set_mcp_server(config: &mut JsonValue, id: &str, spec: JsonValue)
    requires
        old(config)@ is Object,
    ensures
        final(config)@ == workbuddy_set_v(old(config)@, id@, spec@),
{
    let mut s1 = members_copy(config.get("mcpServers"));
    object_insert(&mut s1, to_owned_string(id), spec);
    let mut es = take_members(config);
    object_insert(&mut es, to_owned_string("mcpServers"), object_of(s1));
    *config = object_of(es);
}

pub open spec fn workbuddy_remove_v(config: JsonView, id: Seq<char>) -> JsonView {
    match spec_get(config, "mcpServers"@) {
        Some(JsonView::Object(s0)) => JsonView::Object(
            entries_insert(config->Object_0, "mcpServers"@, JsonView::Object(entries_remove(s0, id))),
        ),
        _ => config,
    }
}

/// Removes `mcpServers.<id>`; other servers and members stay.
pub fn workbuddy_remove_mcp_server(config: &mut JsonValue, id: &str)
    requires
        old(config)@ is Object,
    ensures
        final(config)@ == workbuddy_remove_v(old(config)@, id@),
{
    let is_obj = match config.get("mcpServers") {
        Some(s) => s.is_object(),
        None => false,
    };
    if !is_obj {
        return;
    }
    let mut s1 = members_copy(config.get("mcpServers"));
    object_remove(&mut s1, id);
    let mut es = take_members(config);
    object_insert(&mut es, to_owned_string("mcpServers"), object_of(s1));
    *config = object_of(es);
}

// ---------------------------------------------------------------------------
// DSH entries <-> unified server definitions
// ---------------------------------------------------------------------------

/// `type` of a unified definition (`stdio` when absent).
pub open spec fn spec_type(spec: JsonView) -> Seq<char> {
    match spec_get_str(spec, "type"@) {
        Some(t) => t,
        None => "stdio"@,
    }
}

pub open spec fn stdio_keys() -> Seq<Seq<char>> {
    seq!["command"@, "args"@, "env"@, "cwd"@]
}

pub open spec fn http_keys() -> Seq<Seq<char>> {
    seq!["url"@, "headers"@]
}

/// A unified definition as a DSH server entry: `stdio` keeps command, args,
/// env and cwd; `http` becomes `streamable-http` with url and headers; any
/// other type (`sse`) has no DSH form and is skipped.
pub open spec fn spec_to_dsh_entry(id: Seq<char>, spec: JsonView) -> Option<JsonView> {
    let t = spec_type(spec);
    if t == "stdio"@ {
        Some(JsonView::Object(copy_keys(seq![("name"@, JsonView::Str(id)), ("transport"@, JsonView::Str("stdio"@))], spec, stdio_keys())))
    } else if t == "http"@ {
        Some(JsonView::Object(copy_keys(seq![("name"@, JsonView::Str(id)), ("transport"@, JsonView::Str("streamable-http"@))], spec, http_keys())))
    } else {
        None
    }
}

/// `transport` of a DSH entry (`stdio` when absent).
pub open spec fn spec_transport(entry: JsonView) -> Seq<char> {
    match spec_get_str(entry, "transport"@) {
        Some(t) => t,
        None => "stdio"@,
    }
}

pub open spec fn unsupported_transport_message(t: Seq<char>) -> Seq<char> {
    "DSH MCP 条目使用了不支持的 transport: '"@ + t + "'（支持 stdio/streamable-http）"@
}

/// A DSH entry as a unified definition; an unknown transport is an error.
pub open spec fn spec_from_dsh_entry(entry: JsonView) -> Result<JsonView, Seq<char>> {
    let t = spec_transport(entry);
    if t == "stdio"@ {
        Ok(JsonView::Object(copy_keys(seq![("type"@, JsonView::Str("stdio"@))], entry, stdio_keys())))
    } else if t == "streamable-http"@ {
        Ok(JsonView::Object(copy_keys(seq![("type"@, JsonView::Str("http"@))], entry, http_keys())))
    } else {
        Err(unsupported_transport_message(t))
    }
}

/// A member as the conversions copy it: a `null` member counts as absent.
pub open spec fn copied_member(v: Option<JsonView>) -> Option<JsonView> {
    match v {
        Some(x) => if x is Null {
            None
        } else {
            Some(x)
        },
        None => None,
    }
}

proof fn lemma_copy_keys_get(acc: Seq<(Seq<char>, JsonView)>, item: JsonView, keys: Seq<Seq<char>>, k: Seq<char>)
    ensures
        entries_get(copy_keys(acc, item, keys), k) == if keys.contains(k) && copied_member(spec_get(item, k)) is Some {
            copied_member(spec_get(item, k))
        } else {
            entries_get(acc, k)
        },
    decreases keys.len(),
{
    if keys.len() > 0 {
        let init = keys.drop_last();
        let last = keys.last();
        lemma_copy_keys_get(acc, item, init, k);
        let prev = copy_keys(acc, item, init);
        match spec_get(item, last) {
            Some(v) => if !(v is Null) {
                law_get_after_insert(prev, last, v, k);
            },
            None => {},
        }
        assert(keys =~= init.push(last));
        assert(keys.contains(k) == (init.contains(k) || last == k)) by {
            if init.contains(k) {
                let i = choose|i: int| 0 <= i < init.len() && init[i] == k;
                assert(keys[i] == k);
            }
            if keys.contains(k) {
                let i = choose|i: int| 0 <= i < keys.len() && keys[i] == k;
                if i < init.len() {
                    assert(init[i] == k);
                }
            }
        }
    }
}

proof fn lemma_copy_keys_same(acc: Seq<(Seq<char>, JsonView)>, a: JsonView, b: JsonView, keys: Seq<Seq<char>>)
    requires
        forall|i: int| 0 <= i < keys.len() ==> copied_member(spec_get(a, #[trigger] keys[i])) == copied_member(spec_get(b, keys[i])),
    ensures
        copy_keys(acc, a, keys) == copy_keys(acc, b, keys),
    decreases keys.len(),
{
    if keys.len() > 0 {
        let init = keys.drop_last();
        assert forall|i: int| 0 <= i < init.len() implies copied_member(spec_get(a, #[trigger] init[i])) == copied_member(spec_get(b, init[i])) by {
            assert(init[i] == keys[i]);
        }
        lemma_copy_keys_same(acc, a, b, init);
        assert(copied_member(spec_get(a, keys[keys.len() - 1])) == copied_member(spec_get(b, keys[keys.len() - 1])));
    }
}

proof fn lemma_entry_transport(id: Seq<char>, spec: JsonView, transport: Seq<char>, keys: Seq<Seq<char>>)
    requires
        forall|i: int| 0 <= i < keys.len() ==> #[trigger] keys[i] != "transport"@,
    ensures
        entries_get(copy_keys(seq![("name"@, JsonView::Str(id)), ("transport"@, JsonView::Str(transport))], spec, keys), "transport"@)
            == Some(JsonView::Str(transport)),
{
    let base = seq![("name"@, JsonView::Str(id)), ("transport"@, JsonView::Str(transport))];
    assert(entries_get(base, "transport"@) == Some(JsonView::Str(transport))) by {
        reveal_strlit("name");
        reveal_strlit("transport");
        assert("name"@.len() == 4);
        assert("transport"@.len() == 9);
        assert(base[0].0 != "transport"@);
        crate::json::lemma_key_index_is(base, "transport"@, 1);
    }
    lemma_copy_keys_get(base, spec, keys, "transport"@);
    assert(!keys.contains("transport"@));
}

#[verifier::spinoff_prover]
#[verifier::rlimit(100)]
proof fn lemma_entry_member(id: Seq<char>, spec: JsonView, transport: Seq<char>, keys: Seq<Seq<char>>, i: int)
    requires
        0 <= i < keys.len(),
        keys[i] != "name"@,
        keys[i] != "transport"@,
    ensures
        copied_member(entries_get(copy_keys(seq![("name"@, JsonView::Str(id)), ("transport"@, JsonView::Str(transport))], spec, keys), keys[i]))
            == copied_member(spec_get(spec, keys[i])),
{
    let base = seq![("name"@, JsonView::Str(id)), ("transport"@, JsonView::Str(transport))];
    let k = keys[i];
    assert(keys.contains(k));
    lemma_copy_keys_get(base, spec, keys, k);
    assert(base[0].0 != k && base[1].0 != k);
    crate::json::lemma_key_index_none(base, k);
}

proof fn lemma_dsh_round_trip(id: Seq<char>, spec: JsonView, transport: Seq<char>, t: Seq<char>, keys: Seq<Seq<char>>)
    requires
        forall|i: int| 0 <= i < keys.len() ==> #[trigger] keys[i] != "name"@ && keys[i] != "transport"@,
    ensures
        spec_get_str(JsonView::Object(copy_keys(seq![("name"@, JsonView::Str(id)), ("transport"@, JsonView::Str(transport))], spec, keys)), "transport"@)
            == Some(transport),
        copy_keys(seq![("type"@, JsonView::Str(t))], JsonView::Object(copy_keys(seq![("name"@, JsonView::Str(id)), ("transport"@, JsonView::Str(transport))], spec, keys)), keys)
            == copy_keys(seq![("type"@, JsonView::Str(t))], spec, keys),
{
    let entry = JsonView::Object(copy_keys(seq![("name"@, JsonView::Str(id)), ("transport"@, JsonView::Str(transport))], spec, keys));
    lemma_entry_transport(id, spec, transport, keys);
    assert forall|i: int| 0 <= i < keys.len() implies copied_member(spec_get(entry, #[trigger] keys[i])) == copied_member(spec_get(spec, keys[i])) by {
        lemma_entry_member(id, spec, transport, keys, i);
    }
    lemma_copy_keys_same(seq![("type"@, JsonView::Str(t))], entry, spec, keys);
}

proof fn lemma_not_name_or_transport(k: Seq<char>)
    requires
        k == "command"@ || k == "args"@ || k == "env"@ || k == "cwd"@ || k == "url"@ || k == "headers"@,
    ensures
        k != "name"@,
        k != "transport"@,
{
    reveal_strlit("name");
    reveal_strlit("transport");
    reveal_strlit("command");
    reveal_strlit("args");
    reveal_strlit("env");
    reveal_strlit("cwd");
    reveal_strlit("url");
    reveal_strlit("headers");
    assert(k.len() != 9);
    assert(k.len() != 4 || k[0] == 'a');
}

/// Converting a definition DSH can run (`stdio`, also when the type is
/// omitted, or `http`) to a DSH entry and back gives its type and its
/// transport members as they were, in the same order; the name given to
/// the DSH entry is not part of the definition.
#[verifier::spinoff_prover]
#[verifier::rlimit(60)]
pub proof fn law_dsh_round_trip(id: Seq<char>, spec: JsonView)
    requires
        spec_type(spec) == "stdio"@ || spec_type(spec) == "http"@,
    ensures
        spec_to_dsh_entry(id, spec) matches Some(entry) && spec_from_dsh_entry(entry) == Ok::<JsonView, Seq<char>>(
            JsonView::Object(
                copy_keys(
                    seq![("type"@, JsonView::Str(spec_type(spec)))],
                    spec,
                    if spec_type(spec) == "stdio"@ {
                        stdio_keys()
                    } else {
                        http_keys()
                    },
                ),
            ),
        ),
{
    reveal_strlit("stdio");
    reveal_strlit("http");
    reveal_strlit("streamable-http");
    assert("stdio"@.len() == 5 && "http"@.len() == 4 && "streamable-http"@.len() == 15);
    if spec_type(spec) == "stdio"@ {
        assert forall|i: int| 0 <= i < stdio_keys().len() implies #[trigger] stdio_keys()[i] != "name"@ && stdio_keys()[i] != "transport"@ by {
            lemma_not_name_or_transport(stdio_keys()[i]);
        }
        lemma_dsh_round_trip(id, spec, "stdio"@, "stdio"@, stdio_keys());
        let entry = JsonView::Object(copy_keys(seq![("name"@, JsonView::Str(id)), ("transport"@, JsonView::Str("stdio"@))], spec, stdio_keys()));
        assert(spec_to_dsh_entry(id, spec) == Some(entry));
        assert(spec_transport(entry) == "stdio"@);
    } else {
        assert forall|i: int| 0 <= i < http_keys().len() implies #[trigger] http_keys()[i] != "name"@ && http_keys()[i] != "transport"@ by {
            lemma_not_name_or_transport(http_keys()[i]);
        }
        lemma_dsh_round_trip(id, spec, "streamable-http"@, "http"@, http_keys());
        let entry = JsonView::Object(copy_keys(seq![("name"@, JsonView::Str(id)), ("transport"@, JsonView::Str("streamable-http"@))], spec, http_keys()));
        assert(spec_type(spec) != "stdio"@);
        assert(spec_to_dsh_entry(id, spec) == Some(entry));
        assert(spec_transport(entry) == "streamable-http"@);
        assert(spec_transport(entry) != "stdio"@);
    }
}

/// The transport members of a type: `stdio_keys` for `stdio`, else `http_keys`.
pub open spec fn type_keys(t: Seq<char>) -> Seq<Seq<char>> {
    if t == "stdio"@ {
        stdio_keys()
    } else {
        http_keys()
    }
}

/// Round trip as members: a definition whose `type` is `stdio` or `http`
/// and whose other members are transport members of that type, none of them
/// null, comes back from its DSH entry with every member as it was (the
/// order of the members aside).
#[verifier::spinoff_prover]
#[verifier::rlimit(40)]
pub proof fn law_dsh_round_trip_members(id: Seq<char>, spec: JsonView)
    requires
        spec_get_str(spec, "type"@) == Some("stdio"@) || spec_get_str(spec, "type"@) == Some("http"@),
        forall|k: Seq<char>| #[trigger] spec_get(spec, k) is Some ==> k == "type"@ || type_keys(spec_type(spec)).contains(k),
        forall|k: Seq<char>| #[trigger] spec_get(spec, k) matches Some(v) ==> !(v is Null),
    ensures
        spec_to_dsh_entry(id, spec) matches Some(entry) && spec_from_dsh_entry(entry) matches Ok(back)
            && forall|k: Seq<char>| #[trigger] spec_get(back, k) == spec_get(spec, k),
{
    law_dsh_round_trip(id, spec);
    let t = spec_type(spec);
    let keys = type_keys(t);
    let acc = seq![("type"@, JsonView::Str(t))];
    let back = JsonView::Object(copy_keys(acc, spec, keys));
    reveal_strlit("type");
    reveal_strlit("command");
    reveal_strlit("args");
    reveal_strlit("env");
    reveal_strlit("cwd");
    reveal_strlit("url");
    reveal_strlit("headers");
    reveal_strlit("stdio");
    assert(!keys.contains("type"@)) by {
        if keys.contains("type"@) {
            let i = choose|i: int| 0 <= i < keys.len() && keys[i] == "type"@;
            assert(keys[i].len() != 4 || keys[i][0] != 't');
        }
    }
    assert forall|k: Seq<char>| #[trigger] spec_get(back, k) == spec_get(spec, k) by {
        lemma_copy_keys_get(acc, spec, keys, k);
        if k == "type"@ {
            crate::json::lemma_key_index_is(acc, "type"@, 0);
        } else {
            assert(acc[0].0 != k);
            crate::json::lemma_key_index_none(acc, k);
        }
    }
}

/// `v` has member `k`, and it is not `null`.
pub open spec fn present(v: JsonView, k: Seq<char>) -> bool {
    spec_get(v, k) is Some && !(spec_get(v, k)->0 is Null)
}

/// `k` is one of the members a `stdio` server runs with.
pub open spec fn is_stdio_member(k: Seq<char>) -> bool {
    k == "command"@ || k == "args"@ || k == "env"@ || k == "cwd"@
}

/// `k` is one of the members an `http` server runs with.
pub open spec fn is_http_member(k: Seq<char>) -> bool {
    k == "url"@ || k == "headers"@
}

proof fn lemma_keys_contain(k: Seq<char>)
    ensures
        is_stdio_member(k) ==> stdio_keys().contains(k),
        is_http_member(k) ==> http_keys().contains(k),
{
    if k == "command"@ {
        assert(stdio_keys()[0] == k);
    } else if k == "args"@ {
        assert(stdio_keys()[1] == k);
    } else if k == "env"@ {
        assert(stdio_keys()[2] == k);
    } else if k == "cwd"@ {
        assert(stdio_keys()[3] == k);
    }
    if k == "url"@ {
        assert(http_keys()[0] == k);
    } else if k == "headers"@ {
        assert(http_keys()[1] == k);
    }
}

/// The conversions between unified definitions and DSH entries keep what
/// the server runs with: a `stdio` definition's command, args, env and cwd,
/// an `http` definition's url and headers (each when present and not null)
/// are in its DSH entry as they were, and converting a DSH entry back keeps
/// the same members of a `stdio` or `streamable-http` entry.
#[verifier::spinoff_prover]
#[verifier::rlimit(40)]
pub proof fn law_dsh_keeps_run_members(id: Seq<char>, spec: JsonView, entry: JsonView, k: Seq<char>)
    ensures
        spec_type(spec) == "stdio"@ && is_stdio_member(k) && present(spec, k) ==> (spec_to_dsh_entry(id, spec) is Some
            && spec_get(spec_to_dsh_entry(id, spec)->0, k) == spec_get(spec, k)),
        spec_type(spec) == "http"@ && is_http_member(k) && present(spec, k) ==> (spec_to_dsh_entry(id, spec) is Some
            && spec_get(spec_to_dsh_entry(id, spec)->0, k) == spec_get(spec, k)),
        spec_transport(entry) == "stdio"@ && is_stdio_member(k) && present(entry, k) ==> (spec_from_dsh_entry(entry) is Ok
            && spec_get(spec_from_dsh_entry(entry)->Ok_0, k) == spec_get(entry, k)),
        spec_transport(entry) == "streamable-http"@ && is_http_member(k) && present(entry, k) ==> (
        spec_from_dsh_entry(entry) is Ok && spec_get(spec_from_dsh_entry(entry)->Ok_0, k) == spec_get(entry, k)),
{
    reveal_strlit("stdio");
    reveal_strlit("http");
    reveal_strlit("streamable-http");
    assert("stdio"@.len() == 5 && "http"@.len() == 4 && "streamable-http"@.len() == 15);
    lemma_keys_contain(k);
    if spec_type(spec) == "stdio"@ && is_stdio_member(k) && present(spec, k) {
        let acc = seq![("name"@, JsonView::Str(id)), ("transport"@, JsonView::Str("stdio"@))];
        lemma_copy_keys_get(acc, spec, stdio_keys(), k);
        assert(spec_to_dsh_entry(id, spec) == Some(JsonView::Object(copy_keys(acc, spec, stdio_keys()))));
    }
    if spec_type(spec) == "http"@ && is_http_member(k) && present(spec, k) {
        let acc = seq![("name"@, JsonView::Str(id)), ("transport"@, JsonView::Str("streamable-http"@))];
        lemma_copy_keys_get(acc, spec, http_keys(), k);
        assert(spec_to_dsh_entry(id, spec) == Some(JsonView::Object(copy_keys(acc, spec, http_keys()))));
    }
    if spec_transport(entry) == "stdio"@ && is_stdio_member(k) && present(entry, k) {
        let acc = seq![("type"@, JsonView::Str("stdio"@))];
        lemma_copy_keys_get(acc, entry, stdio_keys(), k);
        assert(spec_from_dsh_entry(entry) == Ok::<JsonView, Seq<char>>(JsonView::Object(copy_keys(acc, entry, stdio_keys()))));
    }
    if spec_transport(entry) == "streamable-http"@ && is_http_member(k) && present(entry, k) {
        let acc = seq![("type"@, JsonView::Str("http"@))];
        lemma_copy_keys_get(acc, entry, http_keys(), k);
        assert(spec_from_dsh_entry(entry) == Ok::<JsonView, Seq<char>>(JsonView::Object(copy_keys(acc, entry, http_keys()))));
    }
}

fn str_value(s: &str) -> (r: JsonValue)
    ensures
        r@ == JsonView::Str(s@),
{
    JsonValue::String(to_owned_string(s))
}

proof fn lemma_copy_keys_step(acc: Seq<(Seq<char>, JsonView)>, item: JsonView, keys: Seq<Seq<char>>, j: int)
    requires
        0 <= j < keys.len(),
    ensures
        copy_keys(acc, item, keys.take(j + 1)) == match spec_get(item, keys[j]) {
            Some(v) => if v is Null {
                copy_keys(acc, item, keys.take(j))
            } else {
                entries_insert(copy_keys(acc, item, keys.take(j)), keys[j], v)
            },
            None => copy_keys(acc, item, keys.take(j)),
        },
{
    assert(keys.take(j + 1).drop_last() =~= keys.take(j));
    assert(keys.take(j + 1).last() == keys[j]);
}

#[verifier::spinoff_prover]
#[verifier::rlimit(60)]
fn copy_members(dst: &mut Vec<(String, JsonValue)>, src: &JsonValue, http: bool)
    ensures
        entries_view(final(dst)@) == copy_keys(entries_view(old(dst)@), src@, if http { http_keys() } else { stdio_keys() }),
{
    let ghost start = entries_view(dst@);
    let ghost keys = if http { http_keys() } else { stdio_keys() };
    assert(keys.take(0) =~= Seq::<Seq<char>>::empty());
    assert(copy_keys(start, src@, keys.take(0)) == start);
    if http {
        proof { lemma_copy_keys_step(start, src@, keys, 0); }
        copy_if_present(dst, src, "url");
        proof { lemma_copy_keys_step(start, src@, keys, 1); }
        copy_if_present(dst, src, "headers");
        assert(keys.take(2) =~= keys);
    } else {
        proof { lemma_copy_keys_step(start, src@, keys, 0); }
        copy_if_present(dst, src, "command");
        proof { lemma_copy_keys_step(start, src@, keys, 1); }
        copy_if_present(dst, src, "args");
        proof { lemma_copy_keys_step(start, src@, keys, 2); }
        copy_if_present(dst, src, "env");
        proof { lemma_copy_keys_step(start, src@, keys, 3); }
        copy_if_present(dst, src, "cwd");
        assert(keys.take(4) =~= keys);
    }
}

/// Converts a unified definition for DSH (see `spec_to_dsh_entry`). The
/// definition is validated by the caller first.
pub fn unified_spec_to_dsh_entry(id: &str, spec: &JsonValue) -> (r: Option<JsonValue>)
    ensures
        match r {
            Some(e) => spec_to_dsh_entry(id@, spec@) == Some(e@),
            None => spec_to_dsh_entry(id@, spec@) is None,
        },
{
    let t = match spec.get_str("type") {
        Some(t) => t,
        None => to_owned_string("stdio"),
    };
    let http = if str_eq(t.as_str(), "stdio") {
        false
    } else if str_eq(t.as_str(), "http") {
        true
    } else {
        return None;
    };
    let mut es: Vec<(String, JsonValue)> = Vec::new();
    es.push((to_owned_string("name"), str_value(id)));
    es.push((to_owned_string("transport"), str_value(if http { "streamable-http" } else { "stdio" })));
    assert(entries_view(es@) =~= seq![("name"@, JsonView::Str(id@)), ("transport"@, JsonView::Str(if http { "streamable-http"@ } else { "stdio"@ }))]);
    copy_members(&mut es, spec, http);
    proof {
        lemma_object_view(es);
    }
    Some(JsonValue::Object(es))
}

/// Converts a DSH entry to a unified definition (see `spec_from_dsh_entry`).
pub fn dsh_entry_to_unified_spec(entry: &JsonValue) -> (r: Result<JsonValue, McpError>)
    ensures
        match r {
            Ok(s) => spec_from_dsh_entry(entry@) == Ok::<JsonView, Seq<char>>(s@),
            Err(McpError::Validation(m)) => spec_from_dsh_entry(entry@) == Err::<JsonView, Seq<char>>(m@),
            Err(McpError::Config(_)) => false,
        },
{
    let t = match entry.get_str("transport") {
        Some(t) => t,
        None => to_owned_string("stdio"),
    };
    let http = if str_eq(t.as_str(), "stdio") {
        false
    } else if str_eq(t.as_str(), "streamable-http") {
        true
    } else {
        let mut m = to_owned_string("DSH MCP 条目使用了不支持的 transport: '");
        push_str(&mut m, t.as_str());
        push_str(&mut m, "'（支持 stdio/streamable-http）");
        return Err(McpError::Validation(m));
    };
    let mut es: Vec<(String, JsonValue)> = Vec::new();
    es.push((to_owned_string("type"), str_value(if http { "http" } else { "stdio" })));
    assert(entries_view(es@) =~= seq![("type"@, JsonView::Str(if http { "http"@ } else { "stdio"@ }))]);
    copy_members(&mut es, entry, http);
    proof {
        lemma_object_view(es);
    }
    Ok(JsonValue::Object(es))
}

/// `enabled` of a DSH entry (`true` unless it is `false`).
pub open spec fn spec_dsh_enabled(entry: JsonView) -> bool {
    match spec_get(entry, "enabled"@) {
        Some(x) => match spec_as_bool(x) {
            Some(b) => b,
            None => true,
        },
        None => true,
    }
}

pub fn dsh_entry_enabled(entry: &JsonValue) -> (r: bool)
    ensures
        r == spec_dsh_enabled(entry@),
{
    match entry.get("enabled") {
        Some(x) => match x.as_bool() {
            Some(b) => b,
            None => true,
        },
        None => true,
    }
}

/// Read after write on a WorkBuddy config: the server just written is read
/// back as written, the other servers as before, other members untouched.
pub proof fn law_workbuddy_set_then_get(config: JsonView, id: Seq<char>, spec: JsonView, other_id: Seq<char>, member: Seq<char>)
    requires
        config is Object,
    ensures
        entries_get(workbuddy_servers_v(workbuddy_set_v(config, id, spec)), id) == Some(spec),
        other_id != id ==> entries_get(workbuddy_servers_v(workbuddy_set_v(config, id, spec)), other_id)
            == entries_get(workbuddy_servers_v(config), other_id),
        member != "mcpServers"@ ==> spec_get(workbuddy_set_v(config, id, spec), member) == spec_get(config, member),
{
    let s0 = members(spec_get(config, "mcpServers"@));
    let s1 = entries_insert(s0, id, spec);
    law_get_after_insert(config->Object_0, "mcpServers"@, JsonView::Object(s1), member);
    law_get_after_insert(s0, id, spec, other_id);
}

/// A removed WorkBuddy server is gone and the others stay (servers without
/// repeated names); the config's other members are untouched.
pub proof fn law_workbuddy_remove_then_get(config: JsonView, id: Seq<char>, other_id: Seq<char>, member: Seq<char>)
    requires
        config is Object,
        keys_unique(workbuddy_servers_v(config)),
    ensures
        entries_get(workbuddy_servers_v(workbuddy_remove_v(config, id)), id) is None,
        other_id != id ==> entries_get(workbuddy_servers_v(workbuddy_remove_v(config, id)), other_id)
            == entries_get(workbuddy_servers_v(config), other_id),
        member != "mcpServers"@ ==> spec_get(workbuddy_remove_v(config, id), member) == spec_get(config, member),
{
    match spec_get(config, "mcpServers"@) {
        Some(JsonView::Object(s0)) => {
            let s1 = entries_remove(s0, id);
            law_get_after_insert(config->Object_0, "mcpServers"@, JsonView::Object(s1), member);
            law_get_after_remove(s0, id, other_id);
        },
        _ => {},
    }
}

// ---------------------------------------------------------------------------
// The unified server table and imports
// ---------------------------------------------------------------------------

/// The apps a server is enabled for. `anthropic_cli` is the Anthropic
/// command-line client.
#[derive(Debug, Clone, Copy, PartialEq, Eq, Structural)]
pub struct McpApps {
    pub anthropic_cli: bool,
    pub codex: bool,
    pub gemini: bool,
    pub grokbuild: bool,
    pub opencode: bool,
    pub hermes: bool,
    pub zcode: bool,
    pub dsh: bool,
    pub workbuddy: bool,
}

/// A server of the unified table.
#[derive(Debug)]
pub struct McpServer {
    pub id: String,
    pub name: String,
    pub server: JsonValue,
    pub apps: McpApps,
    pub description: Option<String>,
    pub homepage: Option<String>,
    pub docs: Option<String>,
    pub tags: Vec<String>,
}

/// What a server holds, as values.
pub ghost struct McpServerView {
    pub id: Seq<char>,
    pub name: Seq<char>,
    pub server: JsonView,
    pub apps: McpApps,
    pub description: Option<Seq<char>>,
    pub homepage: Option<Seq<char>>,
    pub docs: Option<Seq<char>>,
    pub tags: Seq<Seq<char>>,
}

pub open spec fn opt_view(o: Option<String>) -> Option<Seq<char>> {
    match o {
        Some(s) => Some(s@),
        None => None,
    }
}

impl View for McpServer {
    type V = McpServerView;

    open spec fn view(&self) -> McpServerView {
        McpServerView {
            id: self.id@,
            name: self.name@,
            server: self.server@,
            apps: self.apps,
            description: opt_view(self.description),
            homepage: opt_view(self.homepage),
            docs: opt_view(self.docs),
            tags: self.tags@.map_values(|t: String| t@),
        }
    }
}

/// The app an import enables servers for.
#[derive(Debug, Clone, Copy, PartialEq, Eq, Structural)]
pub enum ImportTarget {
    Zcode,
    Dsh,
    WorkBuddy,
}

pub open spec fn app_flag(a: McpApps, t: ImportTarget) -> bool {
    match t {
        ImportTarget::Zcode => a.zcode,
        ImportTarget::Dsh => a.dsh,
        ImportTarget::WorkBuddy => a.workbuddy,
    }
}

pub open spec fn with_flag(a: McpApps, t: ImportTarget) -> McpApps {
    match t {
        ImportTarget::Zcode => McpApps { zcode: true, ..a },
        ImportTarget::Dsh => McpApps { dsh: true, ..a },
        ImportTarget::WorkBuddy => McpApps { workbuddy: true, ..a },
    }
}

pub open spec fn only_flag(t: ImportTarget, on: bool) -> McpApps {
    let none = McpApps {
        anthropic_cli: false,
        codex: false,
        gemini: false,
        grokbuild: false,
        opencode: false,
        hermes: false,
        zcode: false,
        dsh: false,
        workbuddy: false,
    };
    match t {
        ImportTarget::Zcode => McpApps { zcode: on, ..none },
        ImportTarget::Dsh => McpApps { dsh: on, ..none },
        ImportTarget::WorkBuddy => McpApps { workbuddy: on, ..none },
    }
}

/// A server read from an app's live config, with the verdict of the
/// definition check and whether the app has it enabled.
#[derive(Debug)]
pub struct ImportCandidate {
    pub id: String,
    pub spec: JsonValue,
    pub valid: bool,
    pub enabled: bool,
}

pub type TableMap = Map<Seq<char>, McpServerView>;

/// A new server from an import: named by its id, enabled only for the
/// importing app (when the app has it enabled), no metadata.
pub open spec fn imported_server(c: ImportCandidate, t: ImportTarget) -> McpServerView {
    McpServerView {
        id: c.id@,
        name: c.id@,
        server: c.spec@,
        apps: only_flag(t, c.enabled),
        description: None,
        homepage: None,
        docs: None,
        tags: Seq::empty(),
    }
}

/// Importing servers one after the other: an invalid definition is
/// skipped; a known server is only enabled for the app (when it is not yet
/// and the app has it enabled); an unknown one is added. Returns the table
/// and the number of changes.
pub open spec fn import_fold(m: TableMap, cs: Seq<ImportCandidate>, t: ImportTarget) -> (TableMap, nat)
    decreases cs.len(),
{
    if cs.len() == 0 {
        (m, 0)
    } else {
        let (m1, n) = import_fold(m, cs.drop_last(), t);
        let c = cs.last();
        if !c.valid {
            (m1, n)
        } else if m1.dom().contains(c.id@) {
            if !app_flag(m1[c.id@].apps, t) && c.enabled {
                (m1.insert(c.id@, McpServerView { apps: with_flag(m1[c.id@].apps, t), ..m1[c.id@] }), n + 1)
            } else {
                (m1, n)
            }
        } else {
            (m1.insert(c.id@, imported_server(c, t)), n + 1)
        }
    }
}

/// Every valid candidate is in the table, enabled for the app when the
/// app has it enabled.
pub open spec fn imported_all(m: TableMap, cs: Seq<ImportCandidate>, t: ImportTarget) -> bool {
    forall|i: int|
        0 <= i < cs.len() && (#[trigger] cs[i]).valid ==> m.dom().contains(cs[i].id@) && (cs[i].enabled
            ==> app_flag(m[cs[i].id@].apps, t))
}

/// `m1` keeps every server of `m0` and every app flag set there.
pub open spec fn keeps_servers(m0: TableMap, m1: TableMap, t: ImportTarget) -> bool {
    forall|id: Seq<char>|
        #[trigger] m0.dom().contains(id) ==> m1.dom().contains(id) && (app_flag(m0[id].apps, t) ==> app_flag(
            m1[id].apps,
            t,
        ))
}

proof fn lemma_import_keeps(m: TableMap, cs: Seq<ImportCandidate>, t: ImportTarget)
    ensures
        keeps_servers(m, import_fold(m, cs, t).0, t),
        imported_all(import_fold(m, cs, t).0, cs, t),
    decreases cs.len(),
{
    if cs.len() > 0 {
        let init = cs.drop_last();
        let c = cs.last();
        lemma_import_keeps(m, init, t);
        let m1 = import_fold(m, init, t).0;
        let m2 = import_fold(m, cs, t).0;
        assert(keeps_servers(m1, m2, t)) by {
            assert forall|id: Seq<char>| #[trigger] m1.dom().contains(id) implies m2.dom().contains(id) && (app_flag(m1[id].apps, t) ==> app_flag(m2[id].apps, t)) by {
                if c.valid && m1.dom().contains(c.id@) && !app_flag(m1[c.id@].apps, t) && c.enabled && id == c.id@ {
                    match t {
                        ImportTarget::Zcode => {},
                        ImportTarget::Dsh => {},
                        ImportTarget::WorkBuddy => {},
                    }
                }
            }
        }
        assert forall|id: Seq<char>| #[trigger] m.dom().contains(id) implies m2.dom().contains(id) && (app_flag(m[id].apps, t) ==> app_flag(m2[id].apps, t)) by {
            assert(m1.dom().contains(id));
        }
        assert forall|i: int| 0 <= i < cs.len() && (#[trigger] cs[i]).valid implies m2.dom().contains(cs[i].id@) && (cs[i].enabled ==> app_flag(m2[cs[i].id@].apps, t)) by {
            if i < init.len() {
                assert(init[i] == cs[i]);
                assert(m1.dom().contains(cs[i].id@));
            } else {
                assert(cs[i] == c);
                match t {
                    ImportTarget::Zcode => {},
                    ImportTarget::Dsh => {},
                    ImportTarget::WorkBuddy => {},
                }
            }
        }
    }
}

proof fn lemma_import_settled(m: TableMap, cs: Seq<ImportCandidate>, t: ImportTarget)
    requires
        imported_all(m, cs, t),
    ensures
        import_fold(m, cs, t) == (m, 0nat),
    decreases cs.len(),
{
    if cs.len() > 0 {
        let init = cs.drop_last();
        assert(imported_all(m, init, t)) by {
            assert forall|i: int| 0 <= i < init.len() && (#[trigger] init[i]).valid implies m.dom().contains(init[i].id@) && (init[i].enabled ==> app_flag(m[init[i].id@].apps, t)) by {
                assert(init[i] == cs[i]);
            }
        }
        lemma_import_settled(m, init, t);
        let last = cs.len() - 1;
        assert(cs.last() == cs[last]);
    }
}

/// Importing is idempotent: importing the same servers a second time
/// changes nothing and reports no change.
pub proof fn law_import_idempotent(m: TableMap, cs: Seq<ImportCandidate>, t: ImportTarget)
    ensures
        import_fold(import_fold(m, cs, t).0, cs, t) == (import_fold(m, cs, t).0, 0nat),
{
    lemma_import_keeps(m, cs, t);
    lemma_import_settled(import_fold(m, cs, t).0, cs, t);
}

/// The unified server table, keyed by server id.
#[derive(Debug)]
pub struct McpServerTable {
    entries: Vec<(String, McpServer)>,
}

pub open spec fn table_view(s: Seq<(String, McpServer)>) -> Seq<(Seq<char>, McpServerView)> {
    s.map_values(|e: (String, McpServer)| (e.0@, e.1@))
}

impl View for McpServerTable {
    type V = TableMap;

    closed spec fn view(&self) -> TableMap {
        assoc_map(table_view(self.entries@))
    }
}

impl McpServerTable {
    pub closed spec fn wf(&self) -> bool {
        assoc_unique(table_view(self.entries@))
    }

    pub fn new() -> (r: Self)
        ensures
            r.wf(),
            r@ == TableMap::empty(),
    {
        let r = McpServerTable { entries: Vec::new() };
        proof {
            assert(table_view(r.entries@) =~= Seq::<(Seq<char>, McpServerView)>::empty());
            lemma_assoc_empty(table_view(r.entries@));
        }
        r
    }

    fn find(&self, id: &str) -> (r: Option<usize>)
        requires
            self.wf(),
        ensures
            match r {
                Some(i) => i < self.entries@.len() && table_view(self.entries@)[i as int].0 == id@,
                None => !assoc_has(table_view(self.entries@), id@),
            },
    {
        let mut i: usize = 0;
        while i < self.entries.len()
            invariant
                i <= self.entries@.len(),
                forall|j: int| 0 <= j < i ==> table_view(self.entries@)[j].0 != id@,
            decreases self.entries.len() - i,
        {
            if str_eq(self.entries[i].0.as_str(), id) {
                return Some(i);
            }
            i = i + 1;
        }
        None
    }

    /// The apps the server `id` is enabled for.
    pub fn apps_of(&self, id: &str) -> (r: Option<McpApps>)
        requires
            self.wf(),
        ensures
            match r {
                Some(a) => self@.dom().contains(id@) && self@[id@].apps == a,
                None => !self@.dom().contains(id@),
            },
    {
        match self.find(id) {
            Some(i) => {
                proof {
                    lemma_assoc_at(table_view(self.entries@), i as int);
                }
                Some(self.entries[i].1.apps)
            },
            None => None,
        }
    }

    /// Adds or replaces server `id`.
    pub fn insert(&mut self, id: String, server: McpServer)
        requires
            old(self).wf(),
        ensures
            final(self).wf(),
            final(self)@ == old(self)@.insert(id@, server@),
    {
        let ghost s = table_view(self.entries@);
        let ghost v = server@;
        match self.find(id.as_str()) {
            Some(i) => {
                proof {
                    lemma_assoc_update(s, i as int, v);
                }
                self.entries.set(i, (id, server));
                assert(table_view(self.entries@) =~= s.update(i as int, (s[i as int].0, v)));
            },
            None => {
                let ghost k = id@;
                proof {
                    lemma_assoc_push(s, k, v);
                }
                self.entries.push((id, server));
                assert(table_view(self.entries@) =~= s.push((k, v)));
            },
        }
    }

    fn enable(&mut self, i: usize, t: ImportTarget)
        requires
            old(self).wf(),
            i < old(self).entries@.len(),
        ensures
            final(self).wf(),
            ({
                let k = table_view(old(self).entries@)[i as int].0;
                final(self)@ == old(self)@.insert(k, McpServerView { apps: with_flag(old(self)@[k].apps, t), ..old(self)@[k] })
            }),
    {
        let ghost s = table_view(self.entries@);
        proof {
            lemma_assoc_at(s, i as int);
        }
        let (id, mut server) = self.entries.remove(i);
        match t {
            ImportTarget::Zcode => server.apps.zcode = true,
            ImportTarget::Dsh => server.apps.dsh = true,
            ImportTarget::WorkBuddy => server.apps.workbuddy = true,
        }
        let ghost v = server@;
        proof {
            lemma_assoc_update(s, i as int, v);
        }
        self.entries.insert(i, (id, server));
        assert(table_view(self.entries@) =~= s.update(i as int, (s[i as int].0, v)));
    }
}

fn new_server(c: &ImportCandidate, t: ImportTarget) -> (r: McpServer)
    ensures
        r@ == imported_server(*c, t),
{
    let on = c.enabled;
    let none = McpApps {
        anthropic_cli: false,
        codex: false,
        gemini: false,
        grokbuild: false,
        opencode: false,
        hermes: false,
        zcode: false,
        dsh: false,
        workbuddy: false,
    };
    let apps = match t {
        ImportTarget::Zcode => McpApps { zcode: on, ..none },
        ImportTarget::Dsh => McpApps { dsh: on, ..none },
        ImportTarget::WorkBuddy => McpApps { workbuddy: on, ..none },
    };
    let tags: Vec<String> = Vec::new();
    let r = McpServer {
        id: c.id.clone(),
        name: c.id.clone(),
        server: c.spec.deep_copy(),
        apps,
        description: None,
        homepage: None,
        docs: None,
        tags,
    };
    assert(r@.tags =~= Seq::<Seq<char>>::empty());
    r
}

/// Imports servers into the table (see `import_fold`); returns the number
/// of servers added or newly enabled.
pub fn import_servers(table: &mut McpServerTable, candidates: &Vec<ImportCandidate>, t: ImportTarget) -> (r: usize)
    requires
        old(table).wf(),
    ensures
        final(table).wf(),
        (final(table)@, r as nat) == import_fold(old(table)@, candidates@, t),
{
    let ghost start = table@;
    let mut changed: usize = 0;
    let mut i: usize = 0;
    assert(candidates@.take(0) =~= Seq::<ImportCandidate>::empty());
    while i < candidates.len()
        invariant
            i <= candidates@.len(),
            table.wf(),
            changed <= i,
            (table@, changed as nat) == import_fold(start, candidates@.take(i as int), t),
        decreases candidates.len() - i,
    {
        assert(candidates@.take(i + 1).drop_last() =~= candidates@.take(i as int));
        let c = &candidates[i];
        if c.valid {
            match table.find(c.id.as_str()) {
                Some(k) => {
                    proof {
                        lemma_assoc_at(table_view(table.entries@), k as int);
                    }
                    let flag = match t {
                        ImportTarget::Zcode => table.entries[k].1.apps.zcode,
                        ImportTarget::Dsh => table.entries[k].1.apps.dsh,
                        ImportTarget::WorkBuddy => table.entries[k].1.apps.workbuddy,
                    };
                    if !flag && c.enabled {
                        table.enable(k, t);
                        changed = changed + 1;
                    }
                },
                None => {
                    let server = new_server(c, t);
                    table.insert(c.id.clone(), server);
                    changed = changed + 1;
                },
            }
        }
        i = i + 1;
    }
    assert(candidates@.take(candidates@.len() as int) =~= candidates@);
    changed
}

/// Import of the ZCode servers: each is enabled for ZCode.
pub fn import_from_zcode(table: &mut McpServerTable, candidates: &Vec<ImportCandidate>) -> (r: usize)
    requires
        old(table).wf(),
    ensures
        final(table).wf(),
        (final(table)@, r as nat) == import_fold(old(table)@, candidates@, ImportTarget::Zcode),
{
    import_servers(table, candidates, ImportTarget::Zcode)
}

/// Import of the WorkBuddy servers: each is enabled for WorkBuddy.
pub fn import_from_workbuddy(table: &mut McpServerTable, candidates: &Vec<ImportCandidate>) -> (r: usize)
    requires
        old(table).wf(),
    ensures
        final(table).wf(),
        (final(table)@, r as nat) == import_fold(old(table)@, candidates@, ImportTarget::WorkBuddy),
{
    import_servers(table, candidates, ImportTarget::WorkBuddy)
}

/// Import of the DSH servers: enabled for DSH as far as DSH has them enabled.
pub fn import_from_dsh(table: &mut McpServerTable, candidates: &Vec<ImportCandidate>) -> (r: usize)
    requires
        old(table).wf(),
    ensures
        final(table).wf(),
        (final(table)@, r as nat) == import_fold(old(table)@, candidates@, ImportTarget::Dsh),
{
    import_servers(table, candidates, ImportTarget::Dsh)
}

// ---------------------------------------------------------------------------
// Sync and removal per app
// ---------------------------------------------------------------------------

/// Writes a unified definition into a ZCode config (passed through as is).
pub fn sync_single_server_to_zcode(config: &mut JsonValue, id: &str, server_spec: &JsonValue)
    requires
        old(config)@ is Object,
    ensures
        final(config)@ == zcode_set_v(old(config)@, id@, server_spec@),
{
    set_mcp_server(config, id, server_spec.deep_copy())
}

/// Removes a server from a ZCode config.
pub fn remove_server_from_zcode(config: &mut JsonValue, id: &str)
    requires
        old(config)@ is Object,
    ensures
        final(config)@ == zcode_remove_v(old(config)@, id@),
{
    remove_mcp_server(config, id)
}

/// Writes a unified definition into a WorkBuddy config (passed through as is).
pub fn sync_single_server_to_workbuddy(config: &mut JsonValue, id: &str, server_spec: &JsonValue)
    requires
        old(config)@ is Object,
    ensures
        final(config)@ == workbuddy_set_v(old(config)@, id@, server_spec@),
{
    workbuddy_set_mcp_server(config, id, server_spec.deep_copy())
}

/// Removes a server from a WorkBuddy config.
pub fn remove_server_from_workbuddy(config: &mut JsonValue, id: &str)
    requires
        old(config)@ is Object,
    ensures
        final(config)@ == workbuddy_remove_v(old(config)@, id@),
{
    workbuddy_remove_mcp_server(config, id)
}

/// Writes a unified definition into the DSH patch entries: converted to a
/// DSH entry and upserted; a type DSH cannot run (`sse`) changes nothing.
/// The definition is validated by the caller first.
pub fn sync_single_server_to_dsh(entries: &mut Vec<YamlValue>, id: &str, server_spec: &JsonValue) -> (r: Result<(), DshPatchError>)
    ensures
        match spec_to_dsh_entry(id@, server_spec@) {
            None => r is Ok && final(entries)@ == old(entries)@,
            Some(e) => match spec_upsert(yitems_view(old(entries)@), id@, e) {
                Ok(es) => r is Ok && yitems_view(final(entries)@) == es,
                Err(m) => r matches Err(DshPatchError::Config(x)) && x@ == m && final(entries)@ == old(entries)@,
            },
        },
{
    match unified_spec_to_dsh_entry(id, server_spec) {
        Some(entry) => crate::dsh_patch::upsert_server(entries, id, &entry),
        None => Ok(()),
    }
}

/// Removes a server from the DSH patch entries; tells whether it was there.
pub fn remove_server_from_dsh(entries: &mut Vec<YamlValue>, id: &str) -> (r: bool)
    ensures
        r == (named_targets(mcp_client_entries(yitems_view(old(entries)@)), id@).len() > 0),
        yitems_view(final(entries)@) == spec_remove(yitems_view(old(entries)@), id@),
{
    crate::dsh_patch::remove_server(entries, id)
}

} // verus!
