//! Converts an OpenAI Responses event stream into Chat Completions chunks
//! (a Responses upstream behind a `/chat/completions` client).
//!
//! Events map as follows: `response.created` gives the first chunk (role
//! `assistant`); text and reasoning deltas become `delta.content` /
//! `delta.reasoning_content`; a `function_call` item becomes a tool call
//! whose arguments then stream in; `response.completed` / `incomplete` /
//! `failed` and `error` close the turn with a finish chunk, a usage chunk
//! and `[DONE]`.
use vstd::prelude::*;
use crate::assoc::{assoc_unique, assoc_has, assoc_map, lemma_assoc_at, lemma_assoc_update, lemma_assoc_push, lemma_assoc_remove, lemma_assoc_empty};
use crate::json::{
    JsonValue, JsonView, JsonNumber, entries_view, entries_insert, lemma_object_view, lemma_array_view,
    items_view, object_insert, json_to_string, spec_json_text, spec_get, spec_get_str, spec_as_u64,
    spec_json_parse,
};
use crate::text::{str_eq, to_owned_string, concat_str, push_str, trim, trim_string, usize_to_decimal, decimal};

verus! {

/// `data: <json>\n\n`.
pub open spec fn sse_chunk_v(payload: JsonView) -> Seq<char> {
    "data: "@ + spec_json_text(payload) + "\n\n"@
}

pub open spec fn done_marker_v() -> Seq<char> {
    "data: [DONE]\n\n"@
}

fn chat_sse_chunk(payload: &JsonValue) -> (r: String)
    ensures
        r@ == sse_chunk_v(payload@),
{
    let mut out = to_owned_string("data: ");
    push_str(&mut out, json_to_string(payload).as_str());
    push_str(&mut out, "\n\n");
    out
}

fn done_marker() -> (r: String)
    ensures
        r@ == done_marker_v(),
{
    to_owned_string("data: [DONE]\n\n")
}

/// What the converter remembers of the turn.
pub ghost struct ChatStateView {
    pub started: bool,
    pub completed: bool,
    pub response_id: Seq<char>,
    pub model: Seq<char>,
    pub created_at: u64,
    pub next_tool_index: u32,
    pub tools: Map<u64, u32>,
    pub pending: Map<u64, JsonView>,
    pub dropped: usize,
    pub usage: Option<JsonView>,
}

/// Converter state for one streamed turn.
#[derive(Debug)]
pub struct ResponsesToChatState {
    response_started: bool,
    completed: bool,
    response_id: String,
    model: String,
    created_at: u64,
    next_tool_index: u32,
    /// Responses `output_index` -> Chat tool call index.
    tool_index_by_output: Vec<(u64, u32)>,
    /// `output_index` -> the `function_call` item, until it is done.
    pending_tools: Vec<(u64, JsonValue)>,
    /// Tool calls of this turn dropped for want of a name.
    dropped_tool_calls: usize,
    usage: Option<JsonValue>,
}

pub open spec fn pending_view(s: Seq<(u64, JsonValue)>) -> Seq<(u64, JsonView)> {
    s.map_values(|e: (u64, JsonValue)| (e.0, e.1@))
}

pub open spec fn opt_json(o: Option<JsonValue>) -> Option<JsonView> {
    match o {
        Some(v) => Some(v@),
        None => None,
    }
}

impl View for ResponsesToChatState {
    type V = ChatStateView;

    closed spec fn view(&self) -> ChatStateView {
        ChatStateView {
            started: self.response_started,
            completed: self.completed,
            response_id: self.response_id@,
            model: self.model@,
            created_at: self.created_at,
            next_tool_index: self.next_tool_index,
            tools: assoc_map(self.tool_index_by_output@),
            pending: assoc_map(pending_view(self.pending_tools@)),
            dropped: self.dropped_tool_calls,
            usage: opt_json(self.usage),
        }
    }
}

pub open spec fn initial_state() -> ChatStateView {
    ChatStateView {
        started: false,
        completed: false,
        response_id: Seq::empty(),
        model: Seq::empty(),
        created_at: 0,
        next_tool_index: 0,
        tools: Map::empty(),
        pending: Map::empty(),
        dropped: 0,
        usage: None,
    }
}

pub open spec fn obj1(k: Seq<char>, v: JsonView) -> JsonView {
    JsonView::Object(seq![(k, v)])
}

pub open spec fn str_v(s: Seq<char>) -> JsonView {
    JsonView::Str(s)
}

/// The fields every chunk starts with.
pub open spec fn base_entries(st: ChatStateView) -> Seq<(Seq<char>, JsonView)> {
    seq![
        ("id"@, str_v(if st.response_id.len() == 0 { "chatcmpl-ccswitch"@ } else { st.response_id })),
        ("object"@, str_v("chat.completion.chunk"@)),
        ("created"@, JsonView::PosInt(st.created_at)),
        ("model"@, str_v(st.model)),
    ]
}

pub open spec fn finish_json(finish: Option<Seq<char>>) -> JsonView {
    match finish {
        Some(f) => str_v(f),
        None => JsonView::Null,
    }
}

/// A chunk with one choice carrying `delta` (and a finish reason or null).
pub open spec fn choice_chunk_v(st: ChatStateView, delta: JsonView, finish: Option<Seq<char>>) -> Seq<char> {
    let choice = JsonView::Object(
        seq![
            ("index"@, JsonView::PosInt(0)),
            ("delta"@, delta),
            ("finish_reason"@, finish_json(finish)),
        ],
    );
    sse_chunk_v(JsonView::Object(entries_insert(base_entries(st), "choices"@, JsonView::Array(seq![choice]))))
}

pub open spec fn opt_or(o: Option<JsonView>, d: JsonView) -> JsonView {
    match o {
        Some(x) => x,
        None => d,
    }
}

pub open spec fn str_or(o: Option<Seq<char>>, d: Seq<char>) -> Seq<char> {
    match o {
        Some(x) => x,
        None => d,
    }
}

pub open spec fn u64_or_zero(o: Option<JsonView>) -> u64 {
    match o {
        Some(x) => match spec_as_u64(x) {
            Some(n) => n,
            None => 0,
        },
        None => 0,
    }
}

pub open spec fn created_step(st: ChatStateView, data: JsonView) -> (ChatStateView, Seq<Seq<char>>) {
    let response = opt_or(spec_get(data, "response"@), data);
    let st2 = ChatStateView {
        response_id: str_or(spec_get_str(response, "id"@), "chatcmpl-ccswitch"@),
        model: str_or(spec_get_str(response, "model"@), Seq::empty()),
        created_at: u64_or_zero(spec_get(response, "created_at"@)),
        started: true,
        ..st
    };
    (
        st2,
        seq![choice_chunk_v(st2, JsonView::Object(seq![("role"@, str_v("assistant"@)), ("content"@, str_v(Seq::empty()))]), None)],
    )
}

pub open spec fn item_added_step(st: ChatStateView, data: JsonView) -> (ChatStateView, Seq<Seq<char>>) {
    match spec_get(data, "item"@) {
        None => (st, Seq::empty()),
        Some(item) => {
            let oi = u64_or_zero(spec_get(data, "output_index"@));
            if spec_get_str(item, "type"@) != Some("function_call"@) {
                (st, Seq::empty())
            } else {
                let chat = st.next_tool_index;
                let st2 = ChatStateView {
                    next_tool_index: (chat + 1) as u32,
                    tools: st.tools.insert(oi, chat),
                    pending: st.pending.insert(oi, item),
                    ..st
                };
                (st2, seq![choice_chunk_v(st2, obj1("tool_calls"@, JsonView::Array(seq![tool_call_head_v(chat, item)])), None)])
            }
        },
    }
}

pub open spec fn arguments_step(st: ChatStateView, data: JsonView) -> (ChatStateView, Seq<Seq<char>>) {
    let oi = u64_or_zero(spec_get(data, "output_index"@));
    if !st.tools.dom().contains(oi) {
        (st, Seq::empty())
    } else {
        let delta = str_or(spec_get_str(data, "delta"@), Seq::empty());
        if delta.len() == 0 {
            (st, Seq::empty())
        } else {
            let call = JsonView::Object(
                seq![
                    ("index"@, JsonView::PosInt(st.tools[oi] as u64)),
                    ("function"@, obj1("arguments"@, str_v(delta))),
                ],
            );
            (st, seq![choice_chunk_v(st, obj1("tool_calls"@, JsonView::Array(seq![call])), None)])
        }
    }
}

pub open spec fn item_done_step(st: ChatStateView, data: JsonView) -> (ChatStateView, Seq<Seq<char>>) {
    match spec_get(data, "item"@) {
        None => (st, Seq::empty()),
        Some(item) => if spec_get_str(item, "type"@) != Some("function_call"@) {
            (st, Seq::empty())
        } else {
            let oi = u64_or_zero(spec_get(data, "output_index"@));
            let has_name = match spec_get_str(item, "name"@) {
                Some(n) => trim(n).len() > 0,
                None => false,
            };
            let st2 = ChatStateView {
                pending: st.pending.remove(oi),
                dropped: if has_name { st.dropped } else { (st.dropped + 1) as usize },
                ..st
            };
            (st2, Seq::empty())
        },
    }
}

pub open spec fn dropped_message(n: usize) -> Seq<char> {
    "Upstream returned "@ + decimal(n as nat)
        + " function_call item(s) without a name, leaving no usable tool call in this turn"@
}

/// Closing the turn (once): the finish chunk, the usage chunk when a usage
/// is known, and `[DONE]`; a turn whose only tool calls all lost their
/// names ends with an error chunk instead (unless it was cut for length).
pub open spec fn finalize_step(st: ChatStateView, finish: Seq<char>) -> (ChatStateView, Seq<Seq<char>>) {
    if st.completed {
        (st, Seq::empty())
    } else {
        let st1 = ChatStateView { completed: true, started: true, ..st };
        if finish != "length"@ && st.dropped > 0 && st.next_tool_index as int == st.dropped as int {
            let payload = obj1(
                "error"@,
                JsonView::Object(
                    seq![
                        ("message"@, str_v(dropped_message(st.dropped))),
                        ("type"@, str_v("upstream_error"@)),
                        ("code"@, str_v("tool_call_dropped"@)),
                    ],
                ),
            );
            (st1, seq![sse_chunk_v(payload), done_marker_v()])
        } else {
            let first = choice_chunk_v(st1, JsonView::Object(Seq::empty()), Some(finish));
            match st.usage {
                Some(u) => {
                    let payload = JsonView::Object(
                        entries_insert(entries_insert(base_entries(st1), "choices"@, JsonView::Array(Seq::empty())), "usage"@, u),
                    );
                    (ChatStateView { usage: None, ..st1 }, seq![first, sse_chunk_v(payload), done_marker_v()])
                },
                None => (st1, seq![first, done_marker_v()]),
            }
        }
    }
}

/// A turn is closed once: closing it marks it completed, a turn still open
/// is closed with `[DONE]` as the last chunk, and closing it again emits
/// nothing and changes nothing.
pub proof fn law_finalize_once(st: ChatStateView, finish: Seq<char>, again: Seq<char>)
    ensures
        finalize_step(st, finish).0.completed,
        !st.completed ==> finalize_step(st, finish).1.len() > 0 && finalize_step(st, finish).1.last()
            == done_marker_v(),
        finalize_step(finalize_step(st, finish).0, again) == (finalize_step(st, finish).0, Seq::<Seq<char>>::empty()),
{
}

/// The event's type: `data.type`, else the `event:` name.
pub open spec fn event_type(name: Seq<char>, data: JsonView) -> Seq<char> {
    str_or(spec_get_str(data, "type"@), name)
}

/// The `usage` a closing event reports (`Some(None)` when it has none);
/// `None` for other events.
pub open spec fn reported_usage(name: Seq<char>, data: JsonView) -> Option<Option<JsonView>> {
    let t = event_type(name, data);
    if t == "response.completed"@ || t == "response.incomplete"@ || t == "response.failed"@ {
        Some(spec_get(opt_or(spec_get(data, "response"@), data), "usage"@))
    } else {
        None
    }
}

pub open spec fn text_delta_step(st: ChatStateView, data: JsonView, field: Seq<char>) -> (ChatStateView, Seq<Seq<char>>) {
    let delta = str_or(spec_get_str(data, "delta"@), Seq::empty());
    if delta.len() == 0 {
        (st, Seq::empty())
    } else {
        let st1 = ChatStateView { started: true, ..st };
        (st1, seq![choice_chunk_v(st1, obj1(field, str_v(delta)), None)])
    }
}

/// One event; `usage` is the converted usage of a closing event.
pub open spec fn event_step(st: ChatStateView, name: Seq<char>, data: JsonView, usage: JsonView) -> (ChatStateView, Seq<Seq<char>>) {
    let t = event_type(name, data);
    if t == "response.created"@ {
        created_step(st, data)
    } else if t == "response.output_item.added"@ {
        item_added_step(st, data)
    } else if t == "response.output_item.done"@ || t == "response.output_item.completed"@ {
        item_done_step(st, data)
    } else if t == "response.output_text.delta"@ {
        text_delta_step(st, data, "content"@)
    } else if t == "response.reasoning_summary_text.delta"@ || t == "response.reasoning_text.delta"@ {
        text_delta_step(st, data, "reasoning_content"@)
    } else if t == "response.function_call_arguments.delta"@ {
        arguments_step(st, data)
    } else if t == "response.completed"@ {
        let response = opt_or(spec_get(data, "response"@), data);
        let finish = if st.next_tool_index > 0 {
            "tool_calls"@
        } else if spec_get_str(response, "status"@) == Some("incomplete"@) {
            "length"@
        } else {
            "stop"@
        };
        finalize_step(ChatStateView { usage: Some(usage), ..st }, finish)
    } else if t == "response.incomplete"@ {
        finalize_step(ChatStateView { usage: Some(usage), ..st }, "length"@)
    } else if t == "response.failed"@ {
        finalize_step(ChatStateView { usage: Some(usage), ..st }, "stop"@)
    } else if t == "error"@ {
        finalize_step(st, "stop"@)
    } else {
        (st, Seq::empty())
    }
}

/// The `finish_reason` of a chunk payload's first choice.
pub open spec fn chunk_finish_reason(p: JsonView) -> Option<JsonView> {
    match spec_get(p, "choices"@) {
        Some(JsonView::Array(cs)) => if cs.len() > 0 {
            spec_get(cs[0], "finish_reason"@)
        } else {
            None
        },
        _ => None,
    }
}

proof fn lemma_finish_chunk(st0: ChatStateView, f: Seq<char>)
    requires
        !st0.completed,
        !(f != "length"@ && st0.dropped > 0 && st0.next_tool_index as int == st0.dropped as int),
    ensures
        finalize_step(st0, f).1.len() > 0,
        exists|p: JsonView| finalize_step(st0, f).1[0] == #[trigger] sse_chunk_v(p) && chunk_finish_reason(p) == Some(JsonView::Str(f)),
{
    reveal_strlit("index");
    reveal_strlit("delta");
    reveal_strlit("finish_reason");
    let st1 = ChatStateView { completed: true, started: true, ..st0 };
    let choice_es = seq![
        ("index"@, JsonView::PosInt(0)),
        ("delta"@, JsonView::Object(Seq::empty())),
        ("finish_reason"@, finish_json(Some(f))),
    ];
    let choice = JsonView::Object(choice_es);
    let arr = JsonView::Array(seq![choice]);
    let p = JsonView::Object(entries_insert(base_entries(st1), "choices"@, arr));
    assert(finalize_step(st0, f).1[0] == sse_chunk_v(p));
    crate::json::law_get_after_insert(base_entries(st1), "choices"@, arr, "choices"@);
    assert("index"@.len() == 5 && "delta"@.len() == 5 && "finish_reason"@.len() == 13);
    assert(choice_es[0].0 != "finish_reason"@ && choice_es[1].0 != "finish_reason"@);
    crate::json::lemma_key_index_is(choice_es, "finish_reason"@, 2);
    assert(arr->Array_0[0] == choice);
    assert(chunk_finish_reason(p) == Some(JsonView::Str(f)));
}

/// The finish reason a closing event gives an open turn (its first chunk is
/// the finish chunk): after tool calls were started, `tool_calls` on
/// `response.completed` (unless every call lost its name); otherwise
/// `length` for `response.completed` whose response `status` (the
/// `response` member, else the event itself) is `incomplete`, `stop` for
/// any other `response.completed`; `length` for `response.incomplete`; and
/// `stop` for `response.failed` and `error`.
#[verifier::spinoff_prover]
#[verifier::rlimit(60)]
pub proof fn law_closing_finish_reason(st: ChatStateView, name: Seq<char>, data: JsonView, usage: JsonView)
    requires
        !st.completed,
    ensures
        ({
            let t = event_type(name, data);
            let out = event_step(st, name, data, usage).1;
            let response = match spec_get(data, "response"@) {
                Some(r) => r,
                None => data,
            };
            let incomplete = spec_get_str(response, "status"@) == Some("incomplete"@);
            let cut = st.dropped > 0 && st.next_tool_index as int == st.dropped as int;
            let expected = if t == "response.completed"@ {
                if st.next_tool_index > 0 { "tool_calls"@ } else if incomplete { "length"@ } else { "stop"@ }
            } else if t == "response.incomplete"@ {
                "length"@
            } else {
                "stop"@
            };
            (t == "response.completed"@ || t == "response.incomplete"@ || t == "response.failed"@ || t == "error"@)
                && (expected == "length"@ || !cut) ==> out.len() > 0 && exists|p: JsonView|
                out[0] == #[trigger] sse_chunk_v(p) && chunk_finish_reason(p) == Some(JsonView::Str(expected))
        }),
{
    reveal_strlit("response.completed");
    reveal_strlit("response.incomplete");
    reveal_strlit("response.failed");
    reveal_strlit("error");
    reveal_strlit("response.created");
    reveal_strlit("response.output_item.added");
    reveal_strlit("response.output_item.done");
    reveal_strlit("response.output_item.completed");
    reveal_strlit("response.output_text.delta");
    reveal_strlit("response.reasoning_summary_text.delta");
    reveal_strlit("response.reasoning_text.delta");
    reveal_strlit("response.function_call_arguments.delta");
    reveal_strlit("length");
    reveal_strlit("stop");
    reveal_strlit("tool_calls");
    let t = event_type(name, data);
    let response = opt_or(spec_get(data, "response"@), data);
    let incomplete = spec_get_str(response, "status"@) == Some("incomplete"@);
    let cut = st.dropped > 0 && st.next_tool_index as int == st.dropped as int;
    if t == "response.completed"@ || t == "response.incomplete"@ || t == "response.failed"@ || t == "error"@ {
        assert(t.len() == 18 || t.len() == 19 || t.len() == 15 || t.len() == 5);
        assert(t != "response.created"@ && t != "response.output_item.added"@ && t != "response.output_item.done"@
            && t != "response.output_item.completed"@ && t != "response.output_text.delta"@
            && t != "response.reasoning_summary_text.delta"@ && t != "response.reasoning_text.delta"@
            && t != "response.function_call_arguments.delta"@);
        let expected = if t == "response.completed"@ {
            if st.next_tool_index > 0 { "tool_calls"@ } else if incomplete { "length"@ } else { "stop"@ }
        } else if t == "response.incomplete"@ {
            "length"@
        } else {
            "stop"@
        };
        if expected == "length"@ || !cut {
            let st0 = if t == "error"@ { st } else { ChatStateView { usage: Some(usage), ..st } };
            assert(event_step(st, name, data, usage) == finalize_step(st0, expected));
            lemma_finish_chunk(st0, expected);
        }
    }
}

pub open spec fn chunk_views(v: Seq<String>) -> Seq<Seq<char>> {
    v.map_values(|s: String| s@)
}

fn jstr(s: &str) -> (r: JsonValue)
    ensures
        r@ == str_v(s@),
{
    JsonValue::String(to_owned_string(s))
}

fn jnum(n: u64) -> (r: JsonValue)
    ensures
        r@ == JsonView::PosInt(n),
{
    JsonValue::Number(JsonNumber::PosInt(n))
}

fn jobj(es: Vec<(String, JsonValue)>) -> (r: JsonValue)
    ensures
        r@ == JsonView::Object(entries_view(es@)),
{
    proof {
        lemma_object_view(es);
    }
    JsonValue::Object(es)
}

fn jarr(items: Vec<JsonValue>) -> (r: JsonValue)
    ensures
        r@ == JsonView::Array(items_view(items@)),
{
    proof {
        lemma_array_view(items);
    }
    JsonValue::Array(items)
}

fn jobj1(k: &str, v: JsonValue) -> (r: JsonValue)
    ensures
        r@ == obj1(k@, v@),
{
    let mut es: Vec<(String, JsonValue)> = Vec::new();
    let ghost vv = v@;
    es.push((to_owned_string(k), v));
    assert(entries_view(es@) =~= seq![(k@, vv)]);
    jobj(es)
}

fn jarr1(v: JsonValue) -> (r: JsonValue)
    ensures
        r@ == JsonView::Array(seq![v@]),
{
    let mut items: Vec<JsonValue> = Vec::new();
    let ghost vv = v@;
    items.push(v);
    assert(items_view(items@) =~= seq![vv]);
    jarr(items)
}

fn get_str_or(v: &JsonValue, k: &str, d: &str) -> (r: String)
    ensures
        r@ == str_or(spec_get_str(v@, k@), d@),
{
    match v.get_str(k) {
        Some(s) => s,
        None => to_owned_string(d),
    }
}

fn get_u64_or_zero(v: &JsonValue, k: &str) -> (r: u64)
    ensures
        r == u64_or_zero(spec_get(v@, k@)),
{
    match v.get(k) {
        Some(x) => match x.as_u64() {
            Some(n) => n,
            None => 0,
        },
        None => 0,
    }
}

fn response_of(data: &JsonValue) -> (r: &JsonValue)
    ensures
        r@ == opt_or(spec_get(data@, "response"@), data@),
{
    match data.get("response") {
        Some(r) => r,
        None => data,
    }
}

/// The first frame of a tool call.
pub open spec fn tool_call_head_v(chat: u32, item: JsonView) -> JsonView {
    let call_id = match spec_get_str(item, "call_id"@) {
        Some(c) => if c.len() > 0 { c } else { "call_0"@ },
        None => "call_0"@,
    };
    let name = str_or(spec_get_str(item, "name"@), Seq::empty());
    JsonView::Object(
        seq![
            ("index"@, JsonView::PosInt(chat as u64)),
            ("id"@, str_v(call_id)),
            ("type"@, str_v("function"@)),
            ("function"@, JsonView::Object(seq![("name"@, str_v(name)), ("arguments"@, str_v(Seq::empty()))])),
        ],
    )
}

fn tool_call_head(chat: u32, item: &JsonValue) -> (r: JsonValue)
    ensures
        r@ == tool_call_head_v(chat, item@),
{
    let call_id = match item.get_str("call_id") {
        Some(c) => if !c.as_str().is_empty() { c } else { to_owned_string("call_0") },
        None => to_owned_string("call_0"),
    };
    let name = get_str_or(item, "name", "");
    proof {
        reveal_strlit("");
        assert(""@ =~= Seq::<char>::empty());
    }
    let mut f: Vec<(String, JsonValue)> = Vec::new();
    f.push((to_owned_string("name"), JsonValue::String(name)));
    f.push((to_owned_string("arguments"), jstr("")));
    let ghost fv = entries_view(f@);
    let mut call: Vec<(String, JsonValue)> = Vec::new();
    call.push((to_owned_string("index"), jnum(chat as u64)));
    call.push((to_owned_string("id"), JsonValue::String(call_id)));
    call.push((to_owned_string("type"), jstr("function")));
    call.push((to_owned_string("function"), jobj(f)));
    let ghost cv = entries_view(call@);
    proof {
        let call_id_v = match spec_get_str(item@, "call_id"@) {
            Some(c) => if c.len() > 0 { c } else { "call_0"@ },
            None => "call_0"@,
        };
        assert(fv =~= seq![("name"@, str_v(str_or(spec_get_str(item@, "name"@), Seq::empty()))), ("arguments"@, str_v(Seq::empty()))]);
        assert(cv =~= seq![
            ("index"@, JsonView::PosInt(chat as u64)),
            ("id"@, str_v(call_id_v)),
            ("type"@, str_v("function"@)),
            ("function"@, JsonView::Object(fv)),
        ]);
    }
    jobj(call)
}

impl ResponsesToChatState {
    pub closed spec fn wf(&self) -> bool {
        assoc_unique(self.tool_index_by_output@) && assoc_unique(pending_view(self.pending_tools@))
    }

    pub fn new() -> (r: Self)
        ensures
            r.wf(),
            r@ == initial_state(),
    {
        let r = ResponsesToChatState {
            response_started: false,
            completed: false,
            response_id: String::new(),
            model: String::new(),
            created_at: 0,
            next_tool_index: 0,
            tool_index_by_output: Vec::new(),
            pending_tools: Vec::new(),
            dropped_tool_calls: 0,
            usage: None,
        };
        proof {
            lemma_assoc_empty(r.tool_index_by_output@);
            assert(pending_view(r.pending_tools@) =~= Seq::<(u64, JsonView)>::empty());
            lemma_assoc_empty(pending_view(r.pending_tools@));
            assert(r@.tools =~= Map::<u64, u32>::empty());
            assert(r@.pending =~= Map::<u64, JsonView>::empty());
        }
        r
    }

    /// Number of tool calls this turn has started.
    pub fn tool_calls_started(&self) -> (r: u32)
        ensures
            r == self@.next_tool_index,
    {
        self.next_tool_index
    }

    /// Number of tool calls dropped for want of a name.
    pub fn tool_calls_dropped(&self) -> (r: usize)
        ensures
            r == self@.dropped,
    {
        self.dropped_tool_calls
    }

    fn base_chunk(&self) -> (r: Vec<(String, JsonValue)>)
        ensures
            entries_view(r@) == base_entries(self@),
    {
        let mut es: Vec<(String, JsonValue)> = Vec::new();
        let id = if self.response_id.as_str().is_empty() {
            jstr("chatcmpl-ccswitch")
        } else {
            jstr(self.response_id.as_str())
        };
        es.push((to_owned_string("id"), id));
        es.push((to_owned_string("object"), jstr("chat.completion.chunk")));
        es.push((to_owned_string("created"), jnum(self.created_at)));
        es.push((to_owned_string("model"), jstr(self.model.as_str())));
        assert(entries_view(es@) =~= base_entries(self@));
        es
    }

    fn choice_chunk(&self, delta: JsonValue, finish: Option<&str>) -> (r: String)
        ensures
            r@ == choice_chunk_v(self@, delta@, match finish {
                Some(f) => Some(f@),
                None => None,
            }),
    {
        let ghost dv = delta@;
        let mut ch: Vec<(String, JsonValue)> = Vec::new();
        ch.push((to_owned_string("index"), jnum(0)));
        ch.push((to_owned_string("delta"), delta));
        let fr = match finish {
            Some(f) => jstr(f),
            None => JsonValue::Null,
        };
        let ghost fv = fr@;
        let ghost fin = match finish {
            Some(f) => Some(f@),
            None => None,
        };
        assert(fv == finish_json(fin));
        ch.push((to_owned_string("finish_reason"), fr));
        assert(entries_view(ch@) =~= seq![("index"@, JsonView::PosInt(0)), ("delta"@, dv), ("finish_reason"@, fv)]);
        let choice = jobj(ch);
        let ghost choice_v = JsonView::Object(seq![("index"@, JsonView::PosInt(0)), ("delta"@, dv), ("finish_reason"@, fv)]);
        assert(choice@ == choice_v);
        let mut payload = self.base_chunk();
        let arr = jarr1(choice);
        assert(arr@ == JsonView::Array(seq![choice_v]));
        object_insert(&mut payload, to_owned_string("choices"), arr);
        assert(entries_view(payload@) == entries_insert(base_entries(self@), "choices"@, JsonView::Array(seq![choice_v])));
        let p = jobj(payload);
        let r = chat_sse_chunk(&p);
        assert(r@ == sse_chunk_v(JsonView::Object(entries_insert(base_entries(self@), "choices"@, JsonView::Array(seq![choice_v])))));
        assert(r@ == choice_chunk_v(self@, dv, fin));
        r
    }

    fn tool_index(&self, oi: u64) -> (r: Option<u32>)
        requires
            self.wf(),
        ensures
            match r {
                Some(c) => self@.tools.dom().contains(oi) && self@.tools[oi] == c,
                None => !self@.tools.dom().contains(oi),
            },
    {
        let mut i: usize = 0;
        while i < self.tool_index_by_output.len()
            invariant
                self.wf(),
                i <= self.tool_index_by_output@.len(),
                forall|j: int| 0 <= j < i ==> self.tool_index_by_output@[j].0 != oi,
            decreases self.tool_index_by_output.len() - i,
        {
            if self.tool_index_by_output[i].0 == oi {
                proof {
                    lemma_assoc_at(self.tool_index_by_output@, i as int);
                }
                return Some(self.tool_index_by_output[i].1);
            }
            i = i + 1;
        }
        None
    }

    fn set_tool_index(&mut self, oi: u64, chat: u32)
        requires
            old(self).wf(),
        ensures
            final(self).wf(),
            final(self)@ == (ChatStateView { tools: old(self)@.tools.insert(oi, chat), ..old(self)@ }),
    {
        let ghost s = self.tool_index_by_output@;
        let mut i: usize = 0;
        while i < self.tool_index_by_output.len()
            invariant
                *self == *old(self),
                old(self).wf(),
                i <= self.tool_index_by_output@.len(),
                s == self.tool_index_by_output@,
                forall|j: int| 0 <= j < i ==> s[j].0 != oi,
            decreases self.tool_index_by_output.len() - i,
        {
            if self.tool_index_by_output[i].0 == oi {
                proof {
                    lemma_assoc_update(s, i as int, chat);
                }
                self.tool_index_by_output.set(i, (oi, chat));
                assert(self.tool_index_by_output@ =~= s.update(i as int, (s[i as int].0, chat)));
                assert(self@.tools =~= old(self)@.tools.insert(oi, chat));
                return;
            }
            i = i + 1;
        }
        proof {
            lemma_assoc_push(s, oi, chat);
        }
        self.tool_index_by_output.push((oi, chat));
        assert(self@.tools =~= old(self)@.tools.insert(oi, chat));
    }

    fn set_pending(&mut self, oi: u64, item: JsonValue)
        requires
            old(self).wf(),
        ensures
            final(self).wf(),
            final(self)@ == (ChatStateView { pending: old(self)@.pending.insert(oi, item@), ..old(self)@ }),
    {
        let ghost s = pending_view(self.pending_tools@);
        let ghost iv = item@;
        let mut i: usize = 0;
        while i < self.pending_tools.len()
            invariant
                *self == *old(self),
                old(self).wf(),
                iv == item@,
                i <= self.pending_tools@.len(),
                s == pending_view(self.pending_tools@),
                forall|j: int| 0 <= j < i ==> s[j].0 != oi,
            decreases self.pending_tools.len() - i,
        {
            if self.pending_tools[i].0 == oi {
                proof {
                    lemma_assoc_update(s, i as int, iv);
                }
                let ghost before = self.pending_tools@;
                assert(s[i as int] == (before[i as int].0, before[i as int].1@));
                assert(s[i as int].0 == oi);
                self.pending_tools.set(i, (oi, item));
                assert(self.pending_tools@ == before.update(i as int, (oi, item)));
                assert forall|j: int| 0 <= j < s.len() implies pending_view(self.pending_tools@)[j] == s.update(i as int, (s[i as int].0, iv))[j] by {
                    assert(pending_view(self.pending_tools@)[j] == (self.pending_tools@[j].0, self.pending_tools@[j].1@));
                    if j == i {
                        assert(self.pending_tools@[j] == (oi, item));
                    } else {
                        assert(self.pending_tools@[j] == before[j]);
                        assert(s[j] == (before[j].0, before[j].1@));
                    }
                }
                assert(pending_view(self.pending_tools@) =~= s.update(i as int, (s[i as int].0, iv)));
                assert(self@.pending =~= old(self)@.pending.insert(oi, iv));
                return;
            }
            i = i + 1;
        }
        proof {
            lemma_assoc_push(s, oi, iv);
        }
        self.pending_tools.push((oi, item));
        assert(pending_view(self.pending_tools@) =~= s.push((oi, iv)));
        assert(self@.pending =~= old(self)@.pending.insert(oi, iv));
    }

    fn remove_pending(&mut self, oi: u64)
        requires
            old(self).wf(),
        ensures
            final(self).wf(),
            final(self)@ == (ChatStateView { pending: old(self)@.pending.remove(oi), ..old(self)@ }),
    {
        let ghost s = pending_view(self.pending_tools@);
        let mut i: usize = 0;
        while i < self.pending_tools.len()
            invariant
                *self == *old(self),
                old(self).wf(),
                i <= self.pending_tools@.len(),
                s == pending_view(self.pending_tools@),
                forall|j: int| 0 <= j < i ==> s[j].0 != oi,
            decreases self.pending_tools.len() - i,
        {
            if self.pending_tools[i].0 == oi {
                proof {
                    lemma_assoc_remove(s, i as int);
                }
                self.pending_tools.remove(i);
                assert(pending_view(self.pending_tools@) =~= s.remove(i as int));
                assert(self@.pending =~= old(self)@.pending.remove(oi));
                return;
            }
            i = i + 1;
        }
        assert(!assoc_has(s, oi));
        assert(self@.pending =~= old(self)@.pending.remove(oi));
    }

    fn handle_created(&mut self, data: &JsonValue) -> (r: Vec<String>)
        requires
            old(self).wf(),
        ensures
            final(self).wf(),
            (final(self)@, chunk_views(r@)) == created_step(old(self)@, data@),
    {
        let response = response_of(data);
        self.response_id = get_str_or(response, "id", "chatcmpl-ccswitch");
        self.model = get_str_or(response, "model", "");
        self.created_at = get_u64_or_zero(response, "created_at");
        self.response_started = true;
        let mut delta: Vec<(String, JsonValue)> = Vec::new();
        delta.push((to_owned_string("role"), jstr("assistant")));
        delta.push((to_owned_string("content"), jstr("")));
        proof {
            reveal_strlit("");
            assert(""@ =~= Seq::<char>::empty());
            assert(entries_view(delta@) =~= seq![("role"@, str_v("assistant"@)), ("content"@, str_v(Seq::empty()))]);
        }
        let c = self.choice_chunk(jobj(delta), None);
        assert(self@ == created_step(old(self)@, data@).0);
        let mut out: Vec<String> = Vec::new();
        out.push(c);
        assert(chunk_views(out@) =~= seq![c@]);
        proof {
            reveal_strlit("");
            assert(""@ =~= Seq::<char>::empty());
        }
        out
    }

    fn handle_item_added(&mut self, data: &JsonValue) -> (r: Vec<String>)
        requires
            old(self).wf(),
            old(self)@.next_tool_index < u32::MAX,
        ensures
            final(self).wf(),
            (final(self)@, chunk_views(r@)) == item_added_step(old(self)@, data@),
    {
        let item = match data.get("item") {
            Some(item) => item,
            None => return Vec::new(),
        };
        let oi = get_u64_or_zero(data, "output_index");
        let is_call = match item.get_str("type") {
            Some(t) => str_eq(t.as_str(), "function_call"),
            None => false,
        };
        if !is_call {
            return Vec::new();
        }
        let chat = self.next_tool_index;
        self.next_tool_index = chat + 1;
        self.set_tool_index(oi, chat);
        self.set_pending(oi, item.deep_copy());
        let call_id = match item.get_str("call_id") {
            Some(c) => if !c.as_str().is_empty() { c } else { to_owned_string("call_0") },
            None => to_owned_string("call_0"),
        };
        let name = get_str_or(item, "name", "");
        let call = tool_call_head(chat, item);
        let c = self.choice_chunk(jobj1("tool_calls", jarr1(call)), None);
        let mut out: Vec<String> = Vec::new();
        out.push(c);
        assert(chunk_views(out@) =~= seq![c@]);
        out
    }

    #[verifier::spinoff_prover]
    #[verifier::rlimit(40)]
    fn handle_tool_arguments_delta(&mut self, data: &JsonValue) -> (r: Vec<String>)
        requires
            old(self).wf(),
        ensures
            final(self).wf(),
            (final(self)@, chunk_views(r@)) == arguments_step(old(self)@, data@),
    {
        let oi = get_u64_or_zero(data, "output_index");
        let chat = match self.tool_index(oi) {
            Some(c) => c,
            None => return Vec::new(),
        };
        let delta = get_str_or(data, "delta", "");
        proof {
            reveal_strlit("");
            assert(""@ =~= Seq::<char>::empty());
        }
        if delta.as_str().is_empty() {
            return Vec::new();
        }
        let mut call: Vec<(String, JsonValue)> = Vec::new();
        call.push((to_owned_string("index"), jnum(chat as u64)));
        call.push((to_owned_string("function"), jobj1("arguments", JsonValue::String(delta))));
        let ghost cv = entries_view(call@);
        let c = self.choice_chunk(jobj1("tool_calls", jarr1(jobj(call))), None);
        let mut out: Vec<String> = Vec::new();
        out.push(c);
        assert(chunk_views(out@) =~= seq![c@]);
        assert(cv =~= seq![("index"@, JsonView::PosInt(chat as u64)), ("function"@, obj1("arguments"@, str_v(str_or(spec_get_str(data@, "delta"@), Seq::empty()))))]);
        out
    }

    fn handle_item_done(&mut self, data: &JsonValue) -> (r: Vec<String>)
        requires
            old(self).wf(),
            old(self)@.dropped < usize::MAX,
        ensures
            final(self).wf(),
            (final(self)@, chunk_views(r@)) == item_done_step(old(self)@, data@),
    {
        let item = match data.get("item") {
            Some(item) => item,
            None => return Vec::new(),
        };
        let is_call = match item.get_str("type") {
            Some(t) => str_eq(t.as_str(), "function_call"),
            None => false,
        };
        if !is_call {
            return Vec::new();
        }
        let oi = get_u64_or_zero(data, "output_index");
        self.remove_pending(oi);
        let has_name = match item.get_str("name") {
            Some(n) => !trim_string(n.as_str()).as_str().is_empty(),
            None => false,
        };
        if !has_name {
            self.dropped_tool_calls = self.dropped_tool_calls + 1;
        }
        let out: Vec<String> = Vec::new();
        assert(chunk_views(out@) =~= Seq::<Seq<char>>::empty());
        out
    }

    /// Closes the turn (see `finalize_step`).
    pub fn finalize_chunks(&mut self, finish_reason: &str) -> (r: Vec<String>)
        requires
            old(self).wf(),
        ensures
            final(self).wf(),
            (final(self)@, chunk_views(r@)) == finalize_step(old(self)@, finish_reason@),
    {
        if self.completed {
            let out: Vec<String> = Vec::new();
            assert(chunk_views(out@) =~= Seq::<Seq<char>>::empty());
            return out;
        }
        let ghost st = self@;
        self.completed = true;
        self.response_started = true;
        if !str_eq(finish_reason, "length") && self.dropped_tool_calls > 0
            && self.next_tool_index as usize == self.dropped_tool_calls {
            let mut msg = to_owned_string("Upstream returned ");
            push_str(&mut msg, usize_to_decimal(self.dropped_tool_calls).as_str());
            push_str(&mut msg, " function_call item(s) without a name, leaving no usable tool call in this turn");
            let mut err: Vec<(String, JsonValue)> = Vec::new();
            err.push((to_owned_string("message"), JsonValue::String(msg)));
            err.push((to_owned_string("type"), jstr("upstream_error")));
            err.push((to_owned_string("code"), jstr("tool_call_dropped")));
            let ghost ev = entries_view(err@);
            let payload = jobj1("error", jobj(err));
            let mut out: Vec<String> = Vec::new();
            out.push(chat_sse_chunk(&payload));
            out.push(done_marker());
            proof {
                assert(ev =~= seq![
                    ("message"@, str_v(dropped_message(st.dropped))),
                    ("type"@, str_v("upstream_error"@)),
                    ("code"@, str_v("tool_call_dropped"@)),
                ]);
            }
            assert(chunk_views(out@) =~= finalize_step(st, finish_reason@).1);
            return out;
        }
        let empty: Vec<(String, JsonValue)> = Vec::new();
        assert(entries_view(empty@) =~= Seq::<(Seq<char>, JsonView)>::empty());
        let first = self.choice_chunk(jobj(empty), Some(finish_reason));
        let mut out: Vec<String> = Vec::new();
        out.push(first);
        let mut taken: Option<JsonValue> = None;
        std::mem::swap(&mut taken, &mut self.usage);
        match taken {
            Some(u) => {
                let mut payload = self.base_chunk();
                let none: Vec<JsonValue> = Vec::new();
                assert(items_view(none@) =~= Seq::<JsonView>::empty());
                object_insert(&mut payload, to_owned_string("choices"), jarr(none));
                object_insert(&mut payload, to_owned_string("usage"), u);
                out.push(chat_sse_chunk(&jobj(payload)));
            },
            None => {},
        }
        out.push(done_marker());
        assert(chunk_views(out@) =~= finalize_step(st, finish_reason@).1);
        out
    }

    fn text_delta(&mut self, data: &JsonValue, field: &str) -> (r: Vec<String>)
        requires
            old(self).wf(),
        ensures
            final(self).wf(),
            (final(self)@, chunk_views(r@)) == text_delta_step(old(self)@, data@, field@),
    {
        let delta = get_str_or(data, "delta", "");
        proof {
            reveal_strlit("");
            assert(""@ =~= Seq::<char>::empty());
        }
        if delta.as_str().is_empty() {
            let out: Vec<String> = Vec::new();
            assert(chunk_views(out@) =~= Seq::<Seq<char>>::empty());
            return out;
        }
        self.response_started = true;
        let c = self.choice_chunk(jobj1(field, JsonValue::String(delta)), None);
        let mut out: Vec<String> = Vec::new();
        out.push(c);
        assert(chunk_views(out@) =~= seq![c@]);
        out
    }
}

impl ResponsesToChatState {
    fn set_usage<U: Fn(Option<JsonValue>) -> JsonValue>(&mut self, response: &JsonValue, usage_of: &U) -> (r: (Ghost<Option<JsonValue>>, Ghost<JsonValue>))
        requires
            old(self).wf(),
            forall|a: Option<JsonValue>| usage_of.requires((a,)),
        ensures
            final(self).wf(),
            opt_json(r.0@) == spec_get(response@, "usage"@),
            usage_of.ensures((r.0@,), r.1@),
            final(self)@ == (ChatStateView { usage: Some(r.1@@), ..old(self)@ }),
    {
        let raw: Option<JsonValue> = match response.get("usage") {
            Some(v) => Some(v.deep_copy()),
            None => None,
        };
        let ghost xr = raw;
        let u = usage_of(raw);
        let ghost ug = u;
        self.usage = Some(u);
        (Ghost(xr), Ghost(ug))
    }

    /// One Responses event (`event_name` is the `event:` line, `data` the
    /// parsed `data:`); `usage_of` converts a closing event's `usage` into
    /// the Chat form. Returns the Chat chunks to send.
    pub fn handle_event<U: Fn(Option<JsonValue>) -> JsonValue>(&mut self, event_name: &str, data: &JsonValue, usage_of: &U) -> (r: Vec<String>)
        requires
            old(self).wf(),
            old(self)@.next_tool_index < u32::MAX,
            old(self)@.dropped < usize::MAX,
            forall|a: Option<JsonValue>| usage_of.requires((a,)),
        ensures
            final(self).wf(),
            match reported_usage(event_name@, data@) {
                None => (final(self)@, chunk_views(r@)) == event_step(old(self)@, event_name@, data@, JsonView::Null),
                Some(raw) => exists|x: Option<JsonValue>, u: JsonValue|
                    #![trigger usage_of.ensures((x,), u)]
                    opt_json(x) == raw && usage_of.ensures((x,), u) && (final(self)@, chunk_views(r@))
                        == event_step(old(self)@, event_name@, data@, u@),
            },
    {
        let t = get_str_or(data, "type", event_name);
        let ts = t.as_str();
        let ghost st = self@;
        assert(ts@ == event_type(event_name@, data@));
        proof {
            reveal_strlit("response.completed");
            reveal_strlit("response.incomplete");
            reveal_strlit("response.failed");
            reveal_strlit("response.created");
            reveal_strlit("response.output_item.added");
            reveal_strlit("response.output_item.done");
            reveal_strlit("response.output_item.completed");
            reveal_strlit("response.output_text.delta");
            reveal_strlit("response.reasoning_summary_text.delta");
            reveal_strlit("response.reasoning_text.delta");
            reveal_strlit("response.function_call_arguments.delta");
            reveal_strlit("error");
        }
        if str_eq(ts, "response.created") {
            let r = self.handle_created(data);
            assert((self@, chunk_views(r@)) == event_step(st, event_name@, data@, JsonView::Null));
            r
        } else if str_eq(ts, "response.output_item.added") {
            let r = self.handle_item_added(data);
            assert((self@, chunk_views(r@)) == event_step(st, event_name@, data@, JsonView::Null));
            r
        } else if str_eq(ts, "response.output_item.done") || str_eq(ts, "response.output_item.completed") {
            let r = self.handle_item_done(data);
            assert((self@, chunk_views(r@)) == event_step(st, event_name@, data@, JsonView::Null));
            r
        } else if str_eq(ts, "response.output_text.delta") {
            let r = self.text_delta(data, "content");
            assert((self@, chunk_views(r@)) == event_step(st, event_name@, data@, JsonView::Null));
            r
        } else if str_eq(ts, "response.reasoning_summary_text.delta") || str_eq(ts, "response.reasoning_text.delta") {
            let r = self.text_delta(data, "reasoning_content");
            assert((self@, chunk_views(r@)) == event_step(st, event_name@, data@, JsonView::Null));
            r
        } else if str_eq(ts, "response.function_call_arguments.delta") {
            let r = self.handle_tool_arguments_delta(data);
            assert((self@, chunk_views(r@)) == event_step(st, event_name@, data@, JsonView::Null));
            r
        } else if str_eq(ts, "response.completed") {
            let response = response_of(data);
            let tools = self.next_tool_index;
            let incomplete = match response.get_str("status") {
                Some(s2) => str_eq(s2.as_str(), "incomplete"),
                None => false,
            };
            let g = self.set_usage(response, usage_of);
            let finish = if tools > 0 {
                "tool_calls"
            } else if incomplete {
                "length"
            } else {
                "stop"
            };
            let r = self.finalize_chunks(finish);
            assert((self@, chunk_views(r@)) == event_step(st, event_name@, data@, g.1@@));
            assert(st == old(self)@);
            assert(exists|x: Option<JsonValue>, u: JsonValue| #![trigger usage_of.ensures((x,), u)] opt_json(x) == spec_get(response@, "usage"@) && usage_of.ensures((x,), u) && (self@, chunk_views(r@)) == event_step(old(self)@, event_name@, data@, u@));

            assert(opt_json(g.0@) == spec_get(response@, "usage"@) && usage_of.ensures((g.0@,), g.1@));
            assert(reported_usage(event_name@, data@) == Some(spec_get(response@, "usage"@)));
            r
        } else if str_eq(ts, "response.incomplete") {
            let response = response_of(data);
            let g = self.set_usage(response, usage_of);
            let r = self.finalize_chunks("length");
            assert((self@, chunk_views(r@)) == event_step(st, event_name@, data@, g.1@@));
            assert(st == old(self)@);
            assert(exists|x: Option<JsonValue>, u: JsonValue| #![trigger usage_of.ensures((x,), u)] opt_json(x) == spec_get(response@, "usage"@) && usage_of.ensures((x,), u) && (self@, chunk_views(r@)) == event_step(old(self)@, event_name@, data@, u@));

            assert(opt_json(g.0@) == spec_get(response@, "usage"@) && usage_of.ensures((g.0@,), g.1@));
            assert(reported_usage(event_name@, data@) == Some(spec_get(response@, "usage"@)));
            r
        } else if str_eq(ts, "response.failed") {
            let response = response_of(data);
            let g = self.set_usage(response, usage_of);
            let r = self.finalize_chunks("stop");
            assert((self@, chunk_views(r@)) == event_step(st, event_name@, data@, g.1@@));
            assert(st == old(self)@);
            assert(exists|x: Option<JsonValue>, u: JsonValue| #![trigger usage_of.ensures((x,), u)] opt_json(x) == spec_get(response@, "usage"@) && usage_of.ensures((x,), u) && (self@, chunk_views(r@)) == event_step(old(self)@, event_name@, data@, u@));

            assert(opt_json(g.0@) == spec_get(response@, "usage"@) && usage_of.ensures((g.0@,), g.1@));
            assert(reported_usage(event_name@, data@) == Some(spec_get(response@, "usage"@)));
            r
        } else if str_eq(ts, "error") {
            let r = self.finalize_chunks("stop");
            assert((self@, chunk_views(r@)) == event_step(st, event_name@, data@, JsonView::Null));
            r
        } else {
            let out: Vec<String> = Vec::new();
            assert(chunk_views(out@) =~= Seq::<Seq<char>>::empty());
            assert(reported_usage(event_name@, data@) is None);
            out
        }
    }

    /// One SSE event given by its `event:` name and joined `data:` text:
    /// `[DONE]` closes the turn, text that is not JSON is ignored, anything
    /// else goes to `handle_event`.
    pub fn handle_sse_data<U: Fn(Option<JsonValue>) -> JsonValue>(&mut self, event_name: Option<&str>, data: &str, usage_of: &U) -> (r: Vec<String>)
        requires
            old(self).wf(),
            old(self)@.next_tool_index < u32::MAX,
            old(self)@.dropped < usize::MAX,
            forall|a: Option<JsonValue>| usage_of.requires((a,)),
        ensures
            final(self).wf(),
            trim(data@) == "[DONE]"@ ==> (final(self)@, chunk_views(r@)) == finalize_step(old(self)@, "stop"@),
            trim(data@) != "[DONE]"@ && spec_json_parse(data@) is Err ==> final(self)@ == old(self)@ && r@.len() == 0,
            trim(data@) != "[DONE]"@ && spec_json_parse(data@) is Ok ==> ({
                let name = match event_name {
                    Some(n) => n@,
                    None => Seq::<char>::empty(),
                };
                let v = spec_json_parse(data@)->Ok_0;
                match reported_usage(name, v) {
                    None => (final(self)@, chunk_views(r@)) == event_step(old(self)@, name, v, JsonView::Null),
                    Some(raw) => exists|x: Option<JsonValue>, u: JsonValue|
                        #![trigger usage_of.ensures((x,), u)]
                        opt_json(x) == raw && usage_of.ensures((x,), u) && (final(self)@, chunk_views(r@))
                            == event_step(old(self)@, name, v, u@),
                }
            }),
    {
        let trimmed = trim_string(data);
        if str_eq(trimmed.as_str(), "[DONE]") {
            return self.finalize_chunks("stop");
        }
        let value = match crate::json::parse_json(data) {
            Ok(v) => v,
            Err(_) => return Vec::new(),
        };
        let name = match event_name {
            Some(n) => n,
            None => "",
        };
        proof {
            reveal_strlit("");
            assert(""@ =~= Seq::<char>::empty());
        }
        self.handle_event(name, &value, usage_of)
    }
}

} // verus!
