//! API message capture for debugging: what the client sent, what each
//! upstream attempt sent and got back, and what went back to the client.
//!
//! Headers are masked where they carry credentials; message bodies are
//! compacted before they are kept (conversation text, tool schemas and base64
//! payloads become length placeholders, SSE delta runs fold into summaries).
use vstd::prelude::*;
use crate::json::{
    JsonValue, JsonView, entries_view, items_view, lemma_object_view, lemma_array_view,
    json_to_string, json_parse, spec_json_text, spec_json_parse, spec_get, spec_get_str,
    spec_as_u64,
};
use crate::route_prefix::{utf8_len, utf8_len_exec, ascii_eq_ignore_case};
use crate::assoc::{assoc_unique, assoc_has, assoc_map, lemma_assoc_update, lemma_assoc_push, lemma_assoc_empty, lemma_assoc_at, lemma_assoc_insert_at};
use crate::text::{
    decimal, str_chars, str_eq, concat_str, usize_to_decimal, u128_to_decimal, chars_slice,
    push_str, strip_prefix, strip_prefix_seq, str_contains, contains_seq, to_owned_string,
    eq_ignore_ascii_case, ascii_lower_seq, ascii_lower, char_ascii_lower, string_from_chars,
    line_len, line_end, lemma_line_len_bounds, ends_with, text_lt, text_less, lemma_text_lt_total,
};

verus! {

// ---------------------------------------------------------------------------
// Body compaction
// ---------------------------------------------------------------------------

/// Keys whose string values are message text (and are replaced by a
/// placeholder); `data` is the base64 of image blocks.
pub open spec fn is_text_omit_key(k: Seq<char>) -> bool {
    ||| k == "text"@
    ||| k == "thinking"@
    ||| k == "signature"@
    ||| k == "thinking_signature"@
    ||| k == "partial_json"@
    ||| k == "data"@
}

pub fn text_omit_key(k: &str) -> (r: bool)
    ensures
        r == is_text_omit_key(k@),
{
    str_eq(k, "text") || str_eq(k, "thinking") || str_eq(k, "signature") || str_eq(
        k,
        "thinking_signature",
    ) || str_eq(k, "partial_json") || str_eq(k, "data")
}

/// `<omitted N chars>` for a text of N characters.
pub open spec fn placeholder_text(t: Seq<char>) -> Seq<char> {
    "<omitted "@ + decimal(t.len()) + " chars>"@
}

/// `<omitted N bytes>` for a value whose compact JSON text has N bytes.
pub open spec fn omitted_bytes_text(v: JsonView) -> Seq<char> {
    "<omitted "@ + decimal(utf8_len(spec_json_text(v))) + " bytes>"@
}

pub fn placeholder(text: &str) -> (r: String)
    ensures
        r@ == placeholder_text(text@),
{
    let n = str_chars(text).len();
    let d = usize_to_decimal(n);
    concat_str(concat_str("<omitted ", d.as_str()).as_str(), " chars>")
}

fn omitted_bytes(v: &JsonValue) -> (r: String)
    ensures
        r@ == omitted_bytes_text(v@),
{
    let text = json_to_string(v);
    let n = utf8_len_exec(&str_chars(text.as_str()));
    let d = u128_to_decimal(n);
    concat_str(concat_str("<omitted ", d.as_str()).as_str(), " bytes>")
}

/// A body value with its text fields replaced by placeholders.
pub open spec fn compact_view(v: JsonView) -> JsonView
    decreases v, 1nat,
{
    match v {
        JsonView::Object(es) => JsonView::Object(
            Seq::new(
                es.len(),
                |i: int|
                    if 0 <= i < es.len() {
                        proof {
                            assert(decreases_to!(v => es));
                            assert(decreases_to!(es => es[i]));
                            assert(decreases_to!(es[i] => es[i].1));
                        }
                        (es[i].0, compact_member(es[i].0, es[i].1))
                    } else {
                        (Seq::empty(), JsonView::Null)
                    },
            ),
        ),
        JsonView::Array(items) => JsonView::Array(
            Seq::new(
                items.len(),
                |i: int|
                    if 0 <= i < items.len() {
                        proof {
                            assert(decreases_to!(v => items));
                            assert(decreases_to!(items => items[i]));
                        }
                        compact_view(items[i])
                    } else {
                        JsonView::Null
                    },
            ),
        ),
        _ => v,
    }
}

/// Text members are never logged verbatim: in a compacted object, a string
/// member named `text`, `thinking`, `signature`, `thinking_signature`,
/// `partial_json` or `data` becomes `<omitted N chars>`, N its length in
/// characters; the member keeps its name and place.
pub proof fn law_text_members_omitted(es: Seq<(Seq<char>, JsonView)>, i: int)
    requires
        0 <= i < es.len(),
        es[i].0 == "text"@ || es[i].0 == "thinking"@ || es[i].0 == "signature"@ || es[i].0
            == "thinking_signature"@ || es[i].0 == "partial_json"@ || es[i].0 == "data"@,
        es[i].1 is Str,
    ensures
        compact_view(JsonView::Object(es)) is Object,
        compact_view(JsonView::Object(es))->Object_0.len() == es.len(),
        compact_view(JsonView::Object(es))->Object_0[i] == (
            es[i].0,
            JsonView::Str("<omitted "@ + decimal(es[i].1->Str_0.len()) + " chars>"@),
        ),
{
    reveal_strlit("text");
    reveal_strlit("thinking");
    reveal_strlit("signature");
    reveal_strlit("thinking_signature");
    reveal_strlit("partial_json");
    reveal_strlit("data");
    reveal_strlit("system");
    reveal_strlit("content");
    reveal_strlit("tools");
    let k = es[i].0;
    assert(k != "system"@ && k != "content"@ && k != "tools"@) by {
        if k == "system"@ || k == "content"@ || k == "tools"@ {
            assert(k.len() == 6 || k.len() == 7 || k.len() == 5);
            assert(k[0] == 's' || k[0] == 'c' || k[0] == 't');
        }
    }
    let v = JsonView::Object(es);
    assert(decreases_to!(v => v->Object_0));
    assert(decreases_to!(es => es[i]));
    assert(decreases_to!(es[i] => es[i].1));
    assert(is_text_omit_key(k));
    assert(compact_member(k, es[i].1) == JsonView::Str(placeholder_text(es[i].1->Str_0)));
}

/// Other text is kept: a string member whose name is none of the text
/// keys above nor `system`, `content`, `tools`, `description` or
/// `input_schema` is left as it is, in its place.
pub proof fn law_other_strings_kept(es: Seq<(Seq<char>, JsonView)>, i: int)
    requires
        0 <= i < es.len(),
        es[i].1 is Str,
        es[i].0 != "text"@ && es[i].0 != "thinking"@ && es[i].0 != "signature"@ && es[i].0
            != "thinking_signature"@ && es[i].0 != "partial_json"@ && es[i].0 != "data"@,
        es[i].0 != "system"@ && es[i].0 != "content"@ && es[i].0 != "tools"@ && es[i].0 != "description"@
            && es[i].0 != "input_schema"@,
    ensures
        compact_view(JsonView::Object(es))->Object_0[i] == es[i],
{
    let v = JsonView::Object(es);
    assert(decreases_to!(v => v->Object_0));
    assert(decreases_to!(es => es[i]));
    assert(decreases_to!(es[i] => es[i].1));
    assert(!is_text_omit_key(es[i].0));
    assert(compact_member(es[i].0, es[i].1) == compact_view(es[i].1));
}

/// The compacted value of member `k`.
pub open spec fn compact_member(k: Seq<char>, val: JsonView) -> JsonView
    decreases val, 2nat,
{
    if k == "system"@ || k == "content"@ {
        compact_content_view(val)
    } else if k == "tools"@ {
        compact_tools_view(val)
    } else if is_text_omit_key(k) {
        match val {
            JsonView::Str(t) => JsonView::Str(placeholder_text(t)),
            _ => compact_view(val),
        }
    } else if k == "description"@ || k == "input_schema"@ {
        JsonView::Str(
            match val {
                JsonView::Str(t) => placeholder_text(t),
                _ => omitted_bytes_text(val),
            },
        )
    } else {
        compact_view(val)
    }
}

/// `system` / `content`: a whole text becomes a placeholder, blocks are
/// compacted one by one.
pub open spec fn compact_content_view(v: JsonView) -> JsonView
    decreases v, 0nat,
{
    match v {
        JsonView::Str(t) => JsonView::Str(placeholder_text(t)),
        JsonView::Array(items) => JsonView::Array(
            Seq::new(
                items.len(),
                |i: int|
                    if 0 <= i < items.len() {
                        proof {
                            assert(decreases_to!(v => items));
                            assert(decreases_to!(items => items[i]));
                        }
                        compact_view(items[i])
                    } else {
                        JsonView::Null
                    },
            ),
        ),
        _ => v,
    }
}

/// `tools`: each definition is compacted.
pub open spec fn compact_tools_view(v: JsonView) -> JsonView
    decreases v, 0nat,
{
    match v {
        JsonView::Array(items) => JsonView::Array(
            Seq::new(
                items.len(),
                |i: int|
                    if 0 <= i < items.len() {
                        proof {
                            assert(decreases_to!(v => items));
                            assert(decreases_to!(items => items[i]));
                        }
                        compact_view(items[i])
                    } else {
                        JsonView::Null
                    },
            ),
        ),
        _ => v,
    }
}

fn compact_items(v: &JsonValue, items: &Vec<JsonValue>) -> (r: JsonValue)
    requires
        *v == JsonValue::Array(*items),
    ensures
        r@ == JsonView::Array(items_view(items@).map_values(|x: JsonView| compact_view(x))),
    decreases v, 0nat,
{
    let mut out: Vec<JsonValue> = Vec::new();
    let mut i: usize = 0;
    while i < items.len()
        invariant
            *v == JsonValue::Array(*items),
            i <= items@.len(),
            out@.len() == i,
            forall|j: int| 0 <= j < i ==> (#[trigger] out@[j])@ == compact_view(items@[j]@),
        decreases items.len() - i,
    {
        proof {
            assert(decreases_to!(*v => (*v)->Array_0));
            assert(decreases_to!(*items => items@));
            assert(decreases_to!(items@ => items@[i as int]));
        }
        let c = compact_value(&items[i]);
        out.push(c);
        i = i + 1;
    }
    proof {
        lemma_array_view(out);
        assert(items_view(out@) =~= items_view(items@).map_values(|x: JsonView| compact_view(x)));
    }
    JsonValue::Array(out)
}

/// Replaces the text fields of a body value by placeholders.
pub fn compact_value(v: &JsonValue) -> (r: JsonValue)
    ensures
        r@ == compact_view(v@),
    decreases v, 2nat,
{
    match v {
        JsonValue::Object(es) => {
            let mut out: Vec<(String, JsonValue)> = Vec::new();
            let mut i: usize = 0;
            while i < es.len()
                invariant
                    *v == JsonValue::Object(*es),
                    i <= es@.len(),
                    out@.len() == i,
                    forall|j: int|
                        0 <= j < i ==> (#[trigger] out@[j]).0@ == es@[j].0@ && out@[j].1@
                            == compact_member(es@[j].0@, es@[j].1@),
                decreases es.len() - i,
            {
                proof {
                    assert(decreases_to!(*v => (*v)->Object_0));
                    assert(decreases_to!(*es => es@));
                    assert(decreases_to!(es@ => es@[i as int]));
                    assert(decreases_to!(es@[i as int] => es@[i as int].1));
                }
                let c = compact_member_value(es[i].0.as_str(), &es[i].1);
                out.push((es[i].0.clone(), c));
                i = i + 1;
            }
            proof {
                lemma_object_view(out);
                lemma_object_view(*es);
                assert(v@ == JsonView::Object(entries_view(es@)));
                assert(entries_view(out@) =~= compact_view(v@)->Object_0);
            }
            JsonValue::Object(out)
        },
        JsonValue::Array(items) => {
            proof {
                lemma_array_view(*items);
            }
            let r = compact_items(v, items);
            proof {
                assert(items_view(items@).map_values(|x: JsonView| compact_view(x)) =~= compact_view(v@)->Array_0);
            }
            r
        },
        _ => v.deep_copy(),
    }
}

fn compact_member_value(k: &str, val: &JsonValue) -> (r: JsonValue)
    ensures
        r@ == compact_member(k@, val@),
    decreases val, 3nat,
{
    if str_eq(k, "system") || str_eq(k, "content") {
        compact_content(val)
    } else if str_eq(k, "tools") {
        compact_tools(val)
    } else if text_omit_key(k) {
        match val {
            JsonValue::String(t) => JsonValue::String(placeholder(t.as_str())),
            _ => compact_value(val),
        }
    } else if str_eq(k, "description") || str_eq(k, "input_schema") {
        match val {
            JsonValue::String(t) => JsonValue::String(placeholder(t.as_str())),
            _ => JsonValue::String(omitted_bytes(val)),
        }
    } else {
        compact_value(val)
    }
}

/// `messages[*].content`, `system` and response `content`.
pub fn compact_content(content: &JsonValue) -> (r: JsonValue)
    ensures
        r@ == compact_content_view(content@),
    decreases content, 1nat,
{
    match content {
        JsonValue::String(t) => JsonValue::String(placeholder(t.as_str())),
        JsonValue::Array(items) => {
            proof {
                lemma_array_view(*items);
            }
            let r = compact_items(content, items);
            proof {
                assert(items_view(items@).map_values(|x: JsonView| compact_view(x)) =~= compact_content_view(content@)->Array_0);
            }
            r
        },
        _ => content.deep_copy(),
    }
}

/// Tool definitions: names stay, descriptions and schemas become placeholders.
pub fn compact_tools(tools: &JsonValue) -> (r: JsonValue)
    ensures
        r@ == compact_tools_view(tools@),
    decreases tools, 1nat,
{
    match tools {
        JsonValue::Array(items) => {
            proof {
                lemma_array_view(*items);
            }
            let r = compact_items(tools, items);
            proof {
                assert(items_view(items@).map_values(|x: JsonView| compact_view(x)) =~= compact_tools_view(tools@)->Array_0);
            }
            r
        },
        _ => tools.deep_copy(),
    }
}

// ---------------------------------------------------------------------------
// SSE compaction
// ---------------------------------------------------------------------------

/// `trim_end_matches(['\n', '\r'])`.
pub open spec fn trim_nl(s: Seq<char>) -> Seq<char>
    decreases s.len(),
{
    if s.len() > 0 && (s.last() == '\n' || s.last() == '\r') {
        trim_nl(s.drop_last())
    } else {
        s
    }
}

/// The payload of a `data:` line (one space after the colon is dropped).
pub open spec fn sse_payload(t: Seq<char>) -> Option<Seq<char>> {
    match strip_prefix_seq(t, "data:"@) {
        Some(p) => match strip_prefix_seq(p, " "@) {
            Some(q) => Some(q),
            None => Some(p),
        },
        None => None,
    }
}

pub open spec fn is_delta_event(ev: JsonView) -> bool {
    spec_get_str(ev, "type"@) == Some("content_block_delta"@)
}

/// `index` of a delta event (0 when absent or not an unsigned integer).
pub open spec fn delta_index(ev: JsonView) -> usize {
    match spec_get(ev, "index"@) {
        Some(x) => match spec_as_u64(x) {
            Some(n) => n as usize,
            None => 0,
        },
        None => 0,
    }
}

/// `delta.type` of a delta event (empty when absent).
pub open spec fn delta_type(ev: JsonView) -> Seq<char> {
    match spec_get(ev, "delta"@) {
        Some(d) => match spec_get_str(d, "type"@) {
            Some(t) => t,
            None => Seq::empty(),
        },
        None => Seq::empty(),
    }
}

pub open spec fn sat_add(a: usize, b: nat) -> usize {
    if a + b > usize::MAX {
        usize::MAX
    } else {
        (a + b) as usize
    }
}

/// Characters of the text members of a delta object (counts saturate).
pub open spec fn delta_chars_of(es: Seq<(Seq<char>, JsonView)>) -> usize
    decreases es.len(),
{
    if es.len() == 0 {
        0
    } else {
        let e = es.last();
        let c: nat = if is_text_omit_key(e.0) {
            match e.1 {
                JsonView::Str(t) => t.len(),
                _ => 0,
            }
        } else {
            0
        };
        sat_add(delta_chars_of(es.drop_last()), c)
    }
}

pub open spec fn delta_chars(ev: JsonView) -> usize {
    match spec_get(ev, "delta"@) {
        Some(JsonView::Object(es)) => delta_chars_of(es),
        _ => 0,
    }
}

/// A run of folded delta events: index, delta type, events, omitted characters.
pub type SseRun = Option<(usize, Seq<char>, usize, usize)>;

/// The summary line a folded run becomes.
pub open spec fn sse_summary(r: (usize, Seq<char>, usize, usize)) -> Seq<char> {
    "data: {\"type\":\"_delta_summary\",\"index\":"@ + decimal(r.0 as nat)
        + ",\"delta_type\":\""@ + r.1 + "\",\"events\":"@ + decimal(r.2 as nat)
        + ",\"omitted_chars\":"@ + decimal(r.3 as nat) + "}\n"@
}

pub open spec fn flushed(run: SseRun, out: Seq<char>) -> Seq<char> {
    match run {
        Some(r) => out + sse_summary(r),
        None => out,
    }
}

/// One line of an SSE body: delta events join (or start) a run, their
/// `event:` lines vanish, other JSON events are compacted, anything else is
/// kept as it is.
#[verifier::opaque]
pub open spec fn sse_step(run: SseRun, out: Seq<char>, line: Seq<char>) -> (SseRun, Seq<char>) {
    let t = trim_nl(line);
    if t == "event:content_block_delta"@ || t == "event: content_block_delta"@ {
        (run, out)
    } else {
        match sse_payload(t) {
            Some(p) => match spec_json_parse(p) {
                Ok(ev) => if is_delta_event(ev) {
                    let i = delta_index(ev);
                    let ty = delta_type(ev);
                    let ch = delta_chars(ev);
                    match run {
                        Some(r) => if r.0 == i && r.1 == ty {
                            (Some((r.0, r.1, sat_add(r.2, 1), sat_add(r.3, ch as nat))), out)
                        } else {
                            (Some((i, ty, 1, ch)), out + sse_summary(r))
                        },
                        None => (Some((i, ty, 1, ch)), out),
                    }
                } else {
                    (None, flushed(run, out) + "data: "@ + spec_json_text(compact_view(ev)) + "\n"@)
                },
                Err(_) => (None, flushed(run, out) + line),
            },
            None => (None, flushed(run, out) + line),
        }
    }
}

pub open spec fn sse_fold(rest: Seq<char>, run: SseRun, out: Seq<char>) -> Seq<char>
    decreases rest.len(),
{
    if rest.len() == 0 {
        flushed(run, out)
    } else {
        let n = line_len(rest);
        if 0 < n <= rest.len() {
            let (r2, o2) = sse_step(run, out, rest.take(n));
            sse_fold(rest.skip(n), r2, o2)
        } else {
            out
        }
    }
}

/// The compacted SSE body.
pub open spec fn spec_compact_sse(raw: Seq<char>) -> Seq<char> {
    sse_fold(raw, None, Seq::empty())
}

proof fn lemma_fold_unfold(v: Seq<char>, p: int, e: int, line: Seq<char>, run: SseRun, out: Seq<char>)
    requires
        0 <= p < e <= v.len(),
        e - p == line_len(v.skip(p)),
        line == v.subrange(p, e),
    ensures
        sse_fold(v.skip(p), run, out) == sse_fold(
            v.skip(e),
            sse_step(run, out, line).0,
            sse_step(run, out, line).1,
        ),
{
    let rest = v.skip(p);
    assert(rest.take(e - p) =~= line);
    assert(rest.skip(e - p) =~= v.skip(e));
}

/// End of `v[a..b]` without its trailing `\n` / `\r` characters.
fn trim_nl_end(v: &Vec<char>, a: usize, b: usize) -> (e: usize)
    requires
        a <= b <= v@.len(),
    ensures
        a <= e <= b,
        v@.subrange(a as int, e as int) == trim_nl(v@.subrange(a as int, b as int)),
{
    let mut e = b;
    while e > a && (v[e - 1] == '\n' || v[e - 1] == '\r')
        invariant
            a <= e <= b <= v@.len(),
            trim_nl(v@.subrange(a as int, e as int)) == trim_nl(v@.subrange(a as int, b as int)),
        decreases e,
    {
        assert(v@.subrange(a as int, e as int).drop_last() =~= v@.subrange(a as int, e - 1));
        e = e - 1;
    }
    e
}

pub open spec fn run_view(run: Option<(usize, String, usize, usize)>) -> SseRun {
    match run {
        Some(r) => Some((r.0, r.1@, r.2, r.3)),
        None => None,
    }
}

fn summary_line(index: usize, delta_type: &str, events: usize, chars: usize) -> (r: String)
    ensures
        r@ == sse_summary((index, delta_type@, events, chars)),
{
    let mut out = to_owned_string("data: {\"type\":\"_delta_summary\",\"index\":");
    push_str(&mut out, usize_to_decimal(index).as_str());
    push_str(&mut out, ",\"delta_type\":\"");
    push_str(&mut out, delta_type);
    push_str(&mut out, "\",\"events\":");
    push_str(&mut out, usize_to_decimal(events).as_str());
    push_str(&mut out, ",\"omitted_chars\":");
    push_str(&mut out, usize_to_decimal(chars).as_str());
    push_str(&mut out, "}\n");
    out
}

fn flush_run(run: &mut Option<(usize, String, usize, usize)>, out: &mut String)
    ensures
        final(run).is_none(),
        final(out)@ == flushed(run_view(*old(run)), old(out)@),
{
    match run {
        Some(r) => {
            let line = summary_line(r.0, r.1.as_str(), r.2, r.3);
            push_str(out, line.as_str());
        },
        None => {},
    }
    *run = None;
}

fn delta_chars_exec(ev: &JsonValue) -> (r: usize)
    ensures
        r == delta_chars(ev@),
{
    match ev.get("delta") {
        Some(JsonValue::Object(es)) => {
            proof {
                lemma_object_view(*es);
            }
            let ghost ev2 = entries_view(es@);
            let mut acc: usize = 0;
            let mut i: usize = 0;
            while i < es.len()
                invariant
                    i <= es@.len(),
                    ev2 == entries_view(es@),
                    acc == delta_chars_of(ev2.take(i as int)),
                decreases es.len() - i,
            {
                assert(ev2.take(i + 1).drop_last() =~= ev2.take(i as int));
                let c: usize = if text_omit_key(es[i].0.as_str()) {
                    match &es[i].1 {
                        JsonValue::String(t) => str_chars(t.as_str()).len(),
                        _ => 0,
                    }
                } else {
                    0
                };
                acc = acc.saturating_add(c);
                i = i + 1;
            }
            assert(ev2.take(es@.len() as int) =~= ev2);
            acc
        },
        _ => 0,
    }
}

fn sse_step_exec(run: &mut Option<(usize, String, usize, usize)>, out: &mut String, line: &str)
    ensures
        (run_view(*final(run)), final(out)@) == sse_step(run_view(*old(run)), old(out)@, line@),
{
    reveal(sse_step);
    let v = str_chars(line);
    let e = trim_nl_end(&v, 0, v.len());
    assert(v@.subrange(0, v@.len() as int) =~= v@);
    let t = chars_slice(&v, 0, e);
    if str_eq(t.as_str(), "event:content_block_delta") || str_eq(t.as_str(), "event: content_block_delta") {
        return;
    }
    let payload = match strip_prefix(t.as_str(), "data:") {
        Some(p) => match strip_prefix(p.as_str(), " ") {
            Some(q) => Some(q),
            None => Some(p),
        },
        None => None,
    };
    let payload = match payload {
        Some(p) => p,
        None => {
            flush_run(run, out);
            push_str(out, line);
            return;
        },
    };
    let ev = match json_parse(payload.as_str()) {
        Ok(ev) => ev,
        Err(_) => {
            flush_run(run, out);
            push_str(out, line);
            return;
        },
    };
    let is_delta = match ev.get_str("type") {
        Some(ty) => str_eq(ty.as_str(), "content_block_delta"),
        None => false,
    };
    if is_delta {
        let index: usize = match ev.get("index") {
            Some(x) => match x.as_u64() {
                Some(n) => n as usize,
                None => 0,
            },
            None => 0,
        };
        let dtype: String = match ev.get("delta") {
            Some(d) => match d.get_str("type") {
                Some(ty) => ty,
                None => String::new(),
            },
            None => String::new(),
        };
        let chars = delta_chars_exec(&ev);
        let same = match run {
            Some(r) => r.0 == index && str_eq(r.1.as_str(), dtype.as_str()),
            None => false,
        };
        if same {
            let r = run.take().unwrap();
            *run = Some((r.0, r.1, r.2.saturating_add(1), r.3.saturating_add(chars)));
        } else {
            flush_run(run, out);
            *run = Some((index, dtype, 1, chars));
        }
        return;
    }
    flush_run(run, out);
    let compact = json_to_string(&compact_value(&ev));
    push_str(out, "data: ");
    push_str(out, compact.as_str());
    push_str(out, "\n");
}

/// Compacts an SSE body line by line: consecutive `content_block_delta`
/// events with the same index and delta type fold into one summary line
/// (their `event:` lines are dropped), other JSON events are compacted, and
/// `event:` lines, comments, blank lines and `[DONE]` stay as they are.
pub fn compact_sse(raw: &str) -> (r: String)
    ensures
        r@ == spec_compact_sse(raw@),
{
    let v = str_chars(raw);
    let mut run: Option<(usize, String, usize, usize)> = None;
    let mut out = String::new();
    let mut p: usize = 0;
    assert(v@.skip(0) =~= v@);
    while p < v.len()
        invariant
            p <= v@.len(),
            v@ == raw@,
            spec_compact_sse(raw@) == sse_fold(v@.skip(p as int), run_view(run), out@),
        decreases v.len() - p,
    {
        let e = line_end(&v, p);
        let line = chars_slice(&v, p, e);
        proof {
            lemma_fold_unfold(v@, p as int, e as int, line@, run_view(run), out@);
        }
        sse_step_exec(&mut run, &mut out, line.as_str());
        p = e;
    }
    assert(v@.skip(p as int) =~= Seq::<char>::empty());
    flush_run(&mut run, &mut out);
    out
}

/// The compacted body: JSON is compacted value by value, an SSE stream line
/// by line, anything else is kept.
pub open spec fn spec_compact_body(raw: Seq<char>) -> Seq<char> {
    match spec_json_parse(raw) {
        Ok(v) => spec_json_text(compact_view(v)),
        Err(_) => if contains_seq(raw, "data:"@) {
            spec_compact_sse(raw)
        } else {
            raw
        },
    }
}

pub fn compact_body(raw: &str) -> (r: String)
    ensures
        r@ == spec_compact_body(raw@),
{
    match json_parse(raw) {
        Ok(v) => json_to_string(&compact_value(&v)),
        Err(_) => if str_contains(raw, "data:") {
            compact_sse(raw)
        } else {
            to_owned_string(raw)
        },
    }
}

// ---------------------------------------------------------------------------
// Configuration and switch
// ---------------------------------------------------------------------------

/// Settings key under which `ApiLogConfig` is stored.
pub const API_LOG_CONFIG_KEY: &'static str = "api_log_config";

/// Files kept in the log directory; the oldest go first.
pub const MAX_LOG_FILES: usize = 200;

/// API capture settings. Off by default: the messages hold whole
/// conversations and code.
#[derive(Debug, Clone, Copy)]
pub struct ApiLogConfig {
    pub enabled: bool,
}

impl Default for ApiLogConfig {
    fn default() -> (r: Self)
        ensures
            !r.enabled,
    {
        ApiLogConfig { enabled: false }
    }
}

/// The capture switch, read on every request and flipped by the settings.
#[derive(Debug)]
pub struct ApiLogSwitch {
    enabled: bool,
}

impl ApiLogSwitch {
    pub closed spec fn spec_enabled(&self) -> bool {
        self.enabled
    }

    pub fn new() -> (r: Self)
        ensures
            !r.spec_enabled(),
    {
        ApiLogSwitch { enabled: false }
    }

    pub fn set_enabled(&mut self, enabled: bool)
        ensures
            final(self).spec_enabled() == enabled,
    {
        self.enabled = enabled;
    }

    pub fn is_enabled(&self) -> (r: bool)
        ensures
            r == self.spec_enabled(),
    {
        self.enabled
    }
}

// ---------------------------------------------------------------------------
// Headers
// ---------------------------------------------------------------------------

#[verifier::external_type_specification]
#[verifier::external_body]
#[verifier::reject_recursive_types(T)]
pub struct ExHeaderMap<T>(http::HeaderMap<T>);

/// The value type of `http::HeaderMap` (its default parameter).
#[verifier::external_type_specification]
#[verifier::external_body]
pub struct ExHeaderValue(http::HeaderValue);

/// What `HeaderMap::iter` yields, in order: each name once per value, the
/// value as text (empty when it is not visible ASCII, as `to_str` fails then).
pub uninterp spec fn header_map_entries(m: http::HeaderMap) -> Seq<(Seq<char>, Seq<char>)>;

pub open spec fn pair_views(v: Seq<(String, String)>) -> Seq<(Seq<char>, Seq<char>)> {
    v.map_values(|e: (String, String)| (e.0@, e.1@))
}

/// `HeaderMap::iter` with each name (`HeaderName::as_str`) and value
/// (`HeaderValue::to_str`, empty on error) as owned text.
#[verifier::external_body]
fn header_entries(headers: &http::HeaderMap) -> (r: Vec<(String, String)>)
    ensures
        pair_views(r@) == header_map_entries(*headers),
{
    headers.iter().map(|(n, v)| (n.as_str().to_string(), v.to_str().unwrap_or_default().to_string())).collect()
}

/// Headers whose values are masked (the name stays for diagnosis).
pub open spec fn is_sensitive_header(k: Seq<char>) -> bool {
    ||| ascii_eq_ignore_case(k, "authorization"@)
    ||| ascii_eq_ignore_case(k, "proxy-authorization"@)
    ||| ascii_eq_ignore_case(k, "x-api-key"@)
    ||| ascii_eq_ignore_case(k, "api-key"@)
    ||| ascii_eq_ignore_case(k, "x-goog-api-key"@)
    ||| ascii_eq_ignore_case(k, "cookie"@)
    ||| ascii_eq_ignore_case(k, "set-cookie"@)
    ||| ascii_eq_ignore_case(k, "openai-session-id"@)
}

fn sensitive_header(k: &str) -> (r: bool)
    ensures
        r == is_sensitive_header(k@),
{
    eq_ignore_ascii_case(k, "authorization") || eq_ignore_ascii_case(k, "proxy-authorization")
        || eq_ignore_ascii_case(k, "x-api-key") || eq_ignore_ascii_case(k, "api-key")
        || eq_ignore_ascii_case(k, "x-goog-api-key") || eq_ignore_ascii_case(k, "cookie")
        || eq_ignore_ascii_case(k, "set-cookie") || eq_ignore_ascii_case(k, "openai-session-id")
}

/// The sanitized headers: names lower-cased, sensitive values masked as
/// `***`, the values of a repeated name joined with `, ` in order.
pub open spec fn sanitized_headers(es: Seq<(Seq<char>, Seq<char>)>) -> Map<Seq<char>, Seq<char>>
    decreases es.len(),
{
    if es.len() == 0 {
        Map::empty()
    } else {
        let m = sanitized_headers(es.drop_last());
        let k = ascii_lower_seq(es.last().0);
        let shown = if is_sensitive_header(k) {
            "***"@
        } else {
            es.last().1
        };
        if m.dom().contains(k) {
            m.insert(k, m[k] + ", "@ + shown)
        } else {
            m.insert(k, shown)
        }
    }
}

pub(crate) fn ascii_lowercase(s: &str) -> (r: String)
    ensures
        r@ == ascii_lower_seq(s@),
{
    let v = str_chars(s);
    let mut out: Vec<char> = Vec::new();
    let mut i: usize = 0;
    while i < v.len()
        invariant
            i <= v@.len(),
            v@ == s@,
            out@ == ascii_lower_seq(v@.take(i as int)),
        decreases v.len() - i,
    {
        out.push(char_ascii_lower(v[i]));
        assert(ascii_lower_seq(v@.take(i + 1)) =~= ascii_lower_seq(v@.take(i as int)).push(
            ascii_lower(v@[i as int]),
        ));
        i = i + 1;
    }
    assert(v@.take(v@.len() as int) =~= v@);
    string_from_chars(&out)
}

fn find_pair(out: &Vec<(String, String)>, k: &str) -> (r: Option<usize>)
    ensures
        match r {
            Some(i) => i < out@.len() && pair_views(out@)[i as int].0 == k@,
            None => !assoc_has(pair_views(out@), k@),
        },
{
    let mut i: usize = 0;
    while i < out.len()
        invariant
            i <= out@.len(),
            forall|j: int| 0 <= j < i ==> pair_views(out@)[j].0 != k@,
        decreases out.len() - i,
    {
        if str_eq(out[i].0.as_str(), k) {
            return Some(i);
        }
        i = i + 1;
    }
    None
}

/// A value made only of masks: `***`, or such a value followed by `, ***`.
pub open spec fn all_masked(v: Seq<char>) -> bool
    decreases v.len(),
{
    if v == "***"@ {
        true
    } else if v.len() > 5 && v.skip(v.len() - 5) == ", ***"@ {
        all_masked(v.take(v.len() - 5))
    } else {
        false
    }
}

/// No secret reaches a log: whatever the headers, every sensitive header
/// is logged as masks only (one `***` per value it had).
pub proof fn law_sensitive_headers_masked(es: Seq<(Seq<char>, Seq<char>)>, k: Seq<char>)
    requires
        sanitized_headers(es).dom().contains(k),
        is_sensitive_header(k),
    ensures
        all_masked(sanitized_headers(es)[k]),
    decreases es.len(),
{
    reveal_strlit("***");
    reveal_strlit(", ");
    reveal_strlit(", ***");
    let m = sanitized_headers(es.drop_last());
    let last = ascii_lower_seq(es.last().0);
    if last == k {
        if m.dom().contains(k) {
            law_sensitive_headers_masked(es.drop_last(), k);
            let v = m[k] + ", "@ + "***"@;
            assert(v.len() > 5);
            assert(v.skip(v.len() - 5) =~= ", ***"@);
            assert(v.take(v.len() - 5) =~= m[k]);
        }
    } else {
        law_sensitive_headers_masked(es.drop_last(), k);
    }
}

/// The names come in ascending order (each before the next, by `text_lt`).
pub open spec fn names_ascending(s: Seq<(Seq<char>, Seq<char>)>) -> bool {
    forall|i: int, j: int| 0 <= i && j == i + 1 && j < s.len() ==> text_lt(#[trigger] s[i].0, #[trigger] s[j].0)
}

/// Where a new name goes in ascending names: after every name it does not
/// come before.
fn name_position(out: &Vec<(String, String)>, k: &str) -> (r: usize)
    ensures
        r <= out@.len(),
        forall|j: int| 0 <= j < r ==> !text_lt(k@, #[trigger] pair_views(out@)[j].0),
        r < out@.len() ==> text_lt(k@, pair_views(out@)[r as int].0),
{
    let mut p: usize = 0;
    while p < out.len() && !text_less(k, out[p].0.as_str())
        invariant
            p <= out@.len(),
            forall|j: int| 0 <= j < p ==> !text_lt(k@, #[trigger] pair_views(out@)[j].0),
        decreases out.len() - p,
    {
        p = p + 1;
    }
    p
}

/// Sanitizes header entries (see `sanitized_headers`); each name occurs once
/// in the result, and the names come in ascending order, as the keys of a
/// `BTreeMap` do.
pub fn sanitize_header_entries(entries: &Vec<(String, String)>) -> (r: Vec<(String, String)>)
    ensures
        assoc_unique(pair_views(r@)),
        names_ascending(pair_views(r@)),
        assoc_map(pair_views(r@)) == sanitized_headers(pair_views(entries@)),
{
    let ghost es = pair_views(entries@);
    let mut out: Vec<(String, String)> = Vec::new();
    proof {
        assert(pair_views(out@) =~= Seq::<(Seq<char>, Seq<char>)>::empty());
        lemma_assoc_empty(pair_views(out@));
        assert(es.take(0) =~= Seq::<(Seq<char>, Seq<char>)>::empty());
    }
    let mut i: usize = 0;
    while i < entries.len()
        invariant
            i <= entries@.len(),
            es == pair_views(entries@),
            assoc_unique(pair_views(out@)),
            names_ascending(pair_views(out@)),
            assoc_map(pair_views(out@)) == sanitized_headers(es.take(i as int)),
        decreases entries.len() - i,
    {
        assert(es.take(i + 1).drop_last() =~= es.take(i as int));
        let key = ascii_lowercase(entries[i].0.as_str());
        let shown = if sensitive_header(key.as_str()) {
            to_owned_string("***")
        } else {
            entries[i].1.clone()
        };
        let ghost before = pair_views(out@);
        match find_pair(&out, key.as_str()) {
            Some(j) => {
                let mut joined = out[j].1.clone();
                push_str(&mut joined, ", ");
                push_str(&mut joined, shown.as_str());
                proof {
                    lemma_assoc_at(before, j as int);
                    lemma_assoc_update(before, j as int, joined@);
                }
                out.set(j, (key, joined));
                assert(pair_views(out@) =~= before.update(j as int, (before[j as int].0, joined@)));
            },
            None => {
                let p = name_position(&out, key.as_str());
                proof {
                    lemma_assoc_insert_at(before, p as int, key@, shown@);
                }
                let ghost kv = key@;
                out.insert(p, (key, shown));
                let ghost after = pair_views(out@);
                assert(after =~= before.insert(p as int, (kv, shown@)));
                assert forall|a: int, b: int| 0 <= a && b == a + 1 && b < after.len() implies text_lt(#[trigger] after[a].0, #[trigger] after[b].0) by {
                    if b < p {
                        assert(after[a] == before[a] && after[b] == before[b]);
                    } else if a > p {
                        assert(after[a] == before[a - 1] && after[b] == before[b - 1]);
                    } else if b == p {
                        assert(after[a] == before[a]);
                        assert(!text_lt(kv, before[a].0));
                        assert(before[a].0 != kv);
                        lemma_text_lt_total(before[a].0, kv);
                    } else {
                        assert(a == p);
                        assert(after[b] == before[p as int]);
                    }
                }
            },
        }
        i = i + 1;
    }
    assert(es.take(entries@.len() as int) =~= es);
    out
}

/// Headers as they are logged (see `sanitize_header_entries`).
pub fn sanitize_headers(headers: &http::HeaderMap) -> (r: Vec<(String, String)>)
    ensures
        assoc_unique(pair_views(r@)),
        names_ascending(pair_views(r@)),
        assoc_map(pair_views(r@)) == sanitized_headers(header_map_entries(*headers)),
{
    let entries = header_entries(headers);
    sanitize_header_entries(&entries)
}

// ---------------------------------------------------------------------------
// Captured messages
// ---------------------------------------------------------------------------

/// Local time as RFC 3339 with milliseconds (chrono `Local::now`). It reads
/// the clock; nothing is stated of it.
#[verifier::external_body]
fn now_rfc3339() -> String {
    chrono::Local::now().to_rfc3339_opts(chrono::SecondsFormat::Millis, false)
}

/// What `String::from_utf8_lossy` decodes from bytes.
pub uninterp spec fn spec_utf8_lossy(bytes: Seq<u8>) -> Seq<char>;

/// `String::from_utf8_lossy(bytes).into_owned()`.
#[verifier::external_body]
pub(crate) fn lossy(bytes: &[u8]) -> (r: String)
    ensures
        r@ == spec_utf8_lossy(bytes@),
{
    String::from_utf8_lossy(bytes).into_owned()
}

/// One HTTP message (request or response body).
#[derive(Debug)]
pub struct MessageLog {
    pub timestamp: String,
    pub headers: Vec<(String, String)>,
    pub body: String,
}

/// The request the client sent.
#[derive(Debug)]
pub struct ReceivedLog {
    pub timestamp: String,
    pub method: String,
    pub endpoint: String,
    pub headers: Vec<(String, String)>,
    pub body: String,
}

/// An upstream response (an empty shell when sending failed).
#[derive(Debug)]
pub struct ResponseLog {
    pub timestamp: Option<String>,
    pub status: Option<u16>,
    pub headers: Vec<(String, String)>,
    pub body: String,
    pub is_stream: bool,
}

/// One upstream attempt: the request sent and the response got.
#[derive(Debug)]
pub struct ForwardLog {
    /// Number of the attempt, from 1.
    pub attempt: usize,
    pub provider_id: String,
    pub provider_name: String,
    pub url: String,
    pub method: String,
    pub request: MessageLog,
    pub response: ResponseLog,
}

/// The reply that went back to the client.
#[derive(Debug)]
pub struct FinalLog {
    pub timestamp: String,
    pub status: Option<u16>,
    pub body: String,
    pub note: String,
}

/// The content of one log file (one request).
#[derive(Debug)]
pub struct ApiLogFile {
    pub request_id: String,
    pub app_type: String,
    pub model: String,
    pub created_at: String,
    pub received: Option<ReceivedLog>,
    pub forwards: Vec<ForwardLog>,
    pub final_response: Option<FinalLog>,
}

/// Where the bytes of a logged stream go: a passthrough stream is the
/// upstream response body, a converter's output is the final reply.
#[derive(Debug, Clone, Copy, PartialEq, Eq, Structural)]
pub enum TeeTarget {
    UpstreamPassthrough,
    FinalOutput,
}

impl Default for ResponseLog {
    fn default() -> (r: Self)
        ensures
            r.timestamp is None,
            r.status is None,
            r.headers@.len() == 0,
            r.body@.len() == 0,
            !r.is_stream,
    {
        ResponseLog {
            timestamp: None,
            status: None,
            headers: Vec::new(),
            body: String::new(),
            is_stream: false,
        }
    }
}

fn copy_pairs(v: &Vec<(String, String)>) -> (r: Vec<(String, String)>)
    ensures
        pair_views(r@) == pair_views(v@),
{
    let mut out: Vec<(String, String)> = Vec::new();
    let mut i: usize = 0;
    while i < v.len()
        invariant
            i <= v@.len(),
            pair_views(out@) == pair_views(v@.take(i as int)),
        decreases v.len() - i,
    {
        let ghost prev = out@;
        let a = v[i].0.clone();
        let b = v[i].1.clone();
        out.push((a, b));
        assert(pair_views(out@) =~= pair_views(prev).push((v@[i as int].0@, v@[i as int].1@)));
        assert(pair_views(v@.take(i + 1)) =~= pair_views(v@.take(i as int)).push(
            (v@[i as int].0@, v@[i as int].1@),
        ));
        i = i + 1;
    }
    assert(v@.take(v@.len() as int) =~= v@);
    out
}

fn copy_opt(o: &Option<String>) -> (r: Option<String>)
    ensures
        r == *o,
{
    match o {
        Some(x) => Some(x.clone()),
        None => None,
    }
}

impl MessageLog {
    pub open spec fn same(&self, o: &MessageLog) -> bool {
        self.timestamp@ == o.timestamp@ && pair_views(self.headers@) == pair_views(o.headers@)
            && self.body@ == o.body@
    }

    pub fn copy(&self) -> (r: Self)
        ensures
            r.same(self),
    {
        MessageLog {
            timestamp: self.timestamp.clone(),
            headers: copy_pairs(&self.headers),
            body: self.body.clone(),
        }
    }
}

impl ReceivedLog {
    pub open spec fn same(&self, o: &ReceivedLog) -> bool {
        self.timestamp@ == o.timestamp@ && self.method@ == o.method@ && self.endpoint@
            == o.endpoint@ && pair_views(self.headers@) == pair_views(o.headers@) && self.body@
            == o.body@
    }

    pub fn copy(&self) -> (r: Self)
        ensures
            r.same(self),
    {
        ReceivedLog {
            timestamp: self.timestamp.clone(),
            method: self.method.clone(),
            endpoint: self.endpoint.clone(),
            headers: copy_pairs(&self.headers),
            body: self.body.clone(),
        }
    }
}

impl ResponseLog {
    pub open spec fn same(&self, o: &ResponseLog) -> bool {
        self.timestamp == o.timestamp && self.status == o.status && pair_views(self.headers@)
            == pair_views(o.headers@) && self.body@ == o.body@ && self.is_stream == o.is_stream
    }

    pub fn copy(&self) -> (r: Self)
        ensures
            r.same(self),
    {
        ResponseLog {
            timestamp: copy_opt(&self.timestamp),
            status: self.status,
            headers: copy_pairs(&self.headers),
            body: self.body.clone(),
            is_stream: self.is_stream,
        }
    }
}

impl ForwardLog {
    pub open spec fn same(&self, o: &ForwardLog) -> bool {
        self.attempt == o.attempt && self.provider_id@ == o.provider_id@ && self.provider_name@
            == o.provider_name@ && self.url@ == o.url@ && self.method@ == o.method@
            && self.request.same(&o.request) && self.response.same(&o.response)
    }

    pub fn copy(&self) -> (r: Self)
        ensures
            r.same(self),
    {
        ForwardLog {
            attempt: self.attempt,
            provider_id: self.provider_id.clone(),
            provider_name: self.provider_name.clone(),
            url: self.url.clone(),
            method: self.method.clone(),
            request: self.request.copy(),
            response: self.response.copy(),
        }
    }
}

impl FinalLog {
    pub open spec fn same(&self, o: &FinalLog) -> bool {
        self.timestamp@ == o.timestamp@ && self.status == o.status && self.body@ == o.body@
            && self.note@ == o.note@
    }

    pub fn copy(&self) -> (r: Self)
        ensures
            r.same(self),
    {
        FinalLog {
            timestamp: self.timestamp.clone(),
            status: self.status,
            body: self.body.clone(),
            note: self.note.clone(),
        }
    }
}

/// Capture of one request's messages. It is written out once
/// (`flush`); later calls of `flush` hand out nothing.
#[derive(Debug)]
pub struct ApiLogCapture {
    pub request_id: String,
    pub app_type: String,
    pub model: String,
    pub received: Option<ReceivedLog>,
    pub forwards: Vec<ForwardLog>,
    pub final_response: Option<FinalLog>,
    pub flushed: bool,
}

/// The two captures agree on everything but `forwards`.
pub open spec fn same_but_forwards(a: ApiLogCapture, b: ApiLogCapture) -> bool {
    &&& a.request_id == b.request_id
    &&& a.app_type == b.app_type
    &&& a.model == b.model
    &&& a.received == b.received
    &&& a.final_response == b.final_response
    &&& a.flushed == b.flushed
}

/// `forwards` of `b` is that of `a` with the last attempt's response replaced
/// by one that satisfies `p`; both are empty otherwise.
pub open spec fn last_forward_updated(
    a: Seq<ForwardLog>,
    b: Seq<ForwardLog>,
    p: spec_fn(ResponseLog) -> bool,
) -> bool {
    if a.len() == 0 {
        b.len() == 0
    } else {
        &&& b.len() == a.len()
        &&& forall|i: int| 0 <= i < a.len() - 1 ==> b[i] == a[i]
        &&& {
            let (x, y) = (a.last(), b.last());
            &&& y.attempt == x.attempt
            &&& y.provider_id == x.provider_id
            &&& y.provider_name == x.provider_name
            &&& y.url == x.url
            &&& y.method == x.method
            &&& y.request == x.request
            &&& p(y.response)
        }
    }
}

/// `f` holds what `c` captured.
pub open spec fn same_file(f: ApiLogFile, c: ApiLogCapture) -> bool {
    &&& f.request_id@ == c.request_id@
    &&& f.app_type@ == c.app_type@
    &&& f.model@ == c.model@
    &&& match (f.received, c.received) {
        (Some(a), Some(b)) => a.same(&b),
        (None, None) => true,
        _ => false,
    }
    &&& f.forwards@.len() == c.forwards@.len()
    &&& forall|i: int| 0 <= i < f.forwards@.len() ==> (#[trigger] f.forwards@[i]).same(&c.forwards@[i])
    &&& match (f.final_response, c.final_response) {
        (Some(a), Some(b)) => a.same(&b),
        (None, None) => true,
        _ => false,
    }
}

impl ApiLogCapture {
    pub fn new(request_id: String, app_type: String, model: String) -> (r: Self)
        ensures
            r.request_id == request_id,
            r.app_type == app_type,
            r.model == model,
            r.received is None,
            r.forwards@.len() == 0,
            r.final_response is None,
            !r.flushed,
    {
        ApiLogCapture {
            request_id,
            app_type,
            model,
            received: None,
            forwards: Vec::new(),
            final_response: None,
            flushed: false,
        }
    }

    /// The request as the client sent it to the proxy.
    pub fn record_received(
        &mut self,
        method: &str,
        endpoint: &str,
        headers: &http::HeaderMap,
        body: &[u8],
    )
        ensures
            final(self).received matches Some(r) && r.method@ == method@ && r.endpoint@
                == endpoint@ && assoc_map(pair_views(r.headers@)) == sanitized_headers(
                header_map_entries(*headers),
            ) && r.body@ == spec_compact_body(spec_utf8_lossy(body@)),
            final(self).forwards == old(self).forwards,
            final(self).final_response == old(self).final_response,
            final(self).request_id == old(self).request_id,
            final(self).app_type == old(self).app_type,
            final(self).model == old(self).model,
            final(self).flushed == old(self).flushed,
    {
        let text = lossy(body);
        self.received = Some(
            ReceivedLog {
                timestamp: now_rfc3339(),
                method: to_owned_string(method),
                endpoint: to_owned_string(endpoint),
                headers: sanitize_headers(headers),
                body: compact_body(text.as_str()),
            },
        );
    }

    /// One upstream attempt is about to be sent: it is appended with an
    /// empty response and numbered from 1.
    pub fn record_forward_request(
        &mut self,
        provider_id: &str,
        provider_name: &str,
        url: &str,
        method: &str,
        headers: &http::HeaderMap,
        body: &[u8],
    )
        requires
            old(self).forwards@.len() < usize::MAX,
        ensures
            same_but_forwards(*old(self), *final(self)),
            final(self).forwards@.len() == old(self).forwards@.len() + 1,
            final(self).forwards@.drop_last() == old(self).forwards@,
            ({
                let f = final(self).forwards@.last();
                &&& f.attempt == old(self).forwards@.len() + 1
                &&& f.provider_id@ == provider_id@
                &&& f.provider_name@ == provider_name@
                &&& f.url@ == url@
                &&& f.method@ == method@
                &&& assoc_map(pair_views(f.request.headers@)) == sanitized_headers(
                    header_map_entries(*headers),
                )
                &&& f.request.body@ == spec_compact_body(spec_utf8_lossy(body@))
                &&& f.response.status is None
                &&& f.response.timestamp is None
                &&& f.response.headers@.len() == 0
                &&& f.response.body@.len() == 0
                &&& !f.response.is_stream
            }),
    {
        let attempt = self.forwards.len() + 1;
        let text = lossy(body);
        let entry = ForwardLog {
            attempt,
            provider_id: to_owned_string(provider_id),
            provider_name: to_owned_string(provider_name),
            url: to_owned_string(url),
            method: to_owned_string(method),
            request: MessageLog {
                timestamp: now_rfc3339(),
                headers: sanitize_headers(headers),
                body: compact_body(text.as_str()),
            },
            response: ResponseLog::default(),
        };
        let ghost before = self.forwards@;
        self.forwards.push(entry);
        assert(self.forwards@.drop_last() =~= before);
    }

    /// The last upstream attempt got its response head.
    pub fn record_forward_response_head(&mut self, status: u16, headers: &http::HeaderMap, is_stream: bool)
        ensures
            same_but_forwards(*old(self), *final(self)),
            last_forward_updated(
                old(self).forwards@,
                final(self).forwards@,
                |r: ResponseLog|
                    r.timestamp is Some && r.status == Some(status) && assoc_map(
                        pair_views(r.headers@),
                    ) == sanitized_headers(header_map_entries(*headers)) && r.body@.len() == 0
                        && r.is_stream == is_stream,
            ),
    {
        let n = self.forwards.len();
        if n == 0 {
            return;
        }
        let ghost before = self.forwards@;
        let response = ResponseLog {
            timestamp: Some(now_rfc3339()),
            status: Some(status),
            headers: sanitize_headers(headers),
            body: String::new(),
            is_stream,
        };
        let mut entry = self.forwards.pop().unwrap();
        entry.response = response;
        self.forwards.push(entry);
        assert(forall|i: int| 0 <= i < before.len() - 1 ==> self.forwards@[i] == before[i]);
    }

    /// The body of the last upstream response (whole, or accumulated at the
    /// end of a stream).
    pub fn record_forward_response_body(&mut self, body: &[u8])
        ensures
            same_but_forwards(*old(self), *final(self)),
            last_forward_updated(
                old(self).forwards@,
                final(self).forwards@,
                |r: ResponseLog|
                    r.body@ == spec_compact_body(spec_utf8_lossy(body@)) && r.timestamp
                        == old(self).forwards@.last().response.timestamp && r.status == old(
                        self,
                    ).forwards@.last().response.status && r.headers == old(
                        self,
                    ).forwards@.last().response.headers && r.is_stream == old(
                        self,
                    ).forwards@.last().response.is_stream,
            ),
    {
        let n = self.forwards.len();
        if n == 0 {
            return;
        }
        let ghost before = self.forwards@;
        let text = lossy(body);
        let compact = compact_body(text.as_str());
        let mut entry = self.forwards.pop().unwrap();
        entry.response.body = compact;
        self.forwards.push(entry);
        assert(forall|i: int| 0 <= i < before.len() - 1 ==> self.forwards@[i] == before[i]);
    }

    /// The reply that went back to the client.
    pub fn record_final(&mut self, status: Option<u16>, body: &[u8], note: &str)
        ensures
            final(self).final_response matches Some(f) && f.status == status && f.body@
                == spec_compact_body(spec_utf8_lossy(body@)) && f.note@ == note@,
            final(self).received == old(self).received,
            final(self).forwards == old(self).forwards,
            final(self).request_id == old(self).request_id,
            final(self).app_type == old(self).app_type,
            final(self).model == old(self).model,
            final(self).flushed == old(self).flushed,
    {
        let text = lossy(body);
        self.final_response = Some(
            FinalLog {
                timestamp: now_rfc3339(),
                status,
                body: compact_body(text.as_str()),
                note: to_owned_string(note),
            },
        );
    }

    /// The file content to write, once: the first call marks the capture as
    /// written and returns everything captured so far; later calls return
    /// `None`.
    pub fn flush(&mut self) -> (r: Option<ApiLogFile>)
        ensures
            final(self).flushed,
            final(self).request_id == old(self).request_id,
            final(self).app_type == old(self).app_type,
            final(self).model == old(self).model,
            final(self).received == old(self).received,
            final(self).forwards == old(self).forwards,
            final(self).final_response == old(self).final_response,
            old(self).flushed ==> r is None,
            !old(self).flushed ==> (r matches Some(f) && same_file(f, *old(self))),
    {
        if self.flushed {
            return None;
        }
        self.flushed = true;
        let received = match &self.received {
            Some(r) => Some(r.copy()),
            None => None,
        };
        let mut forwards: Vec<ForwardLog> = Vec::new();
        let mut i: usize = 0;
        while i < self.forwards.len()
            invariant
                i <= self.forwards@.len(),
                forwards@.len() == i,
                forall|j: int| 0 <= j < i ==> (#[trigger] forwards@[j]).same(&self.forwards@[j]),
            decreases self.forwards.len() - i,
        {
            forwards.push(self.forwards[i].copy());
            i = i + 1;
        }
        let final_response = match &self.final_response {
            Some(f) => Some(f.copy()),
            None => None,
        };
        Some(
            ApiLogFile {
                request_id: self.request_id.clone(),
                app_type: self.app_type.clone(),
                model: self.model.clone(),
                created_at: now_rfc3339(),
                received,
                forwards,
                final_response,
            },
        )
    }
}

/// Name of the file a capture is written to: `<stamp>_<id>.json`, where
/// `<id>` is the first 8 characters of the request id, ASCII lower-cased.
pub open spec fn spec_log_file_name(stamp: Seq<char>, request_id: Seq<char>) -> Seq<char> {
    let n = if request_id.len() < 8 {
        request_id.len() as int
    } else {
        8
    };
    stamp + "_"@ + ascii_lower_seq(request_id.take(n)) + ".json"@
}

pub fn log_file_name(stamp: &str, request_id: &str) -> (r: String)
    ensures
        r@ == spec_log_file_name(stamp@, request_id@),
{
    let v = str_chars(request_id);
    let n = if v.len() < 8 {
        v.len()
    } else {
        8
    };
    let short = chars_slice(&v, 0, n);
    let lower = ascii_lowercase(short.as_str());
    let mut out = to_owned_string(stamp);
    push_str(&mut out, "_");
    push_str(&mut out, lower.as_str());
    push_str(&mut out, ".json");
    out
}

// ---------------------------------------------------------------------------
// Retention
// ---------------------------------------------------------------------------

/// Strict lexicographic order of names, character by character (the order
/// of `String`'s `Ord`: UTF-8 byte order is code point order).
pub open spec fn name_lt(a: Seq<char>, b: Seq<char>) -> bool
    decreases a.len(),
{
    if a.len() == 0 {
        b.len() > 0
    } else if b.len() == 0 {
        false
    } else if a[0] != b[0] {
        (a[0] as u32) < (b[0] as u32)
    } else {
        name_lt(a.skip(1), b.skip(1))
    }
}

proof fn lemma_name_lt_skip(a: Seq<char>, b: Seq<char>, i: int)
    requires
        0 <= i <= a.len(),
        i <= b.len(),
        a.take(i) == b.take(i),
    ensures
        name_lt(a, b) == name_lt(a.skip(i), b.skip(i)),
    decreases i,
{
    if i == 0 {
        assert(a.skip(0) =~= a);
        assert(b.skip(0) =~= b);
    } else {
        assert(a[0] == a.take(i)[0]);
        assert(b[0] == b.take(i)[0]);
        assert(a.skip(1).take(i - 1) =~= a.take(i).skip(1));
        assert(b.skip(1).take(i - 1) =~= b.take(i).skip(1));
        lemma_name_lt_skip(a.skip(1), b.skip(1), i - 1);
        assert(a.skip(1).skip(i - 1) =~= a.skip(i));
        assert(b.skip(1).skip(i - 1) =~= b.skip(i));
    }
}

fn name_lt_exec(a: &Vec<char>, b: &Vec<char>) -> (r: bool)
    ensures
        r == name_lt(a@, b@),
{
    let mut i: usize = 0;
    while i < a.len() && i < b.len() && a[i] == b[i]
        invariant
            i <= a@.len(),
            i <= b@.len(),
            a@.take(i as int) == b@.take(i as int),
        decreases a.len() - i,
    {
        assert(a@.take(i + 1) =~= a@.take(i as int).push(a@[i as int]));
        assert(b@.take(i + 1) =~= b@.take(i as int).push(b@[i as int]));
        i = i + 1;
    }
    proof {
        lemma_name_lt_skip(a@, b@, i as int);
    }
    let ghost sa = a@.skip(i as int);
    let ghost sb = b@.skip(i as int);
    if i == a.len() {
        assert(sa.len() == 0);
        i < b.len()
    } else if i == b.len() {
        assert(sb.len() == 0 && sa.len() > 0);
        false
    } else {
        assert(sa[0] == a@[i as int] && sb[0] == b@[i as int]);
        (a[i] as u32) < (b[i] as u32)
    }
}

/// The API log files among the names of a directory (`*.json`), in order.
pub open spec fn json_names(names: Seq<Seq<char>>) -> Seq<Seq<char>>
    decreases names.len(),
{
    if names.len() == 0 {
        Seq::empty()
    } else {
        let prev = json_names(names.drop_last());
        if ends_with(names.last(), ".json"@) {
            prev.push(names.last())
        } else {
            prev
        }
    }
}

/// `js[j]` sorts before `js[i]` (equal names in list order).
pub open spec fn sorts_before(js: Seq<Seq<char>>, j: int, i: int) -> bool {
    name_lt(js[j], js[i]) || (js[j] == js[i] && j < i)
}

/// How many of the first `n` names sort before `js[i]`.
pub open spec fn count_before(js: Seq<Seq<char>>, i: int, n: int) -> nat
    decreases n,
{
    if n <= 0 {
        0
    } else {
        count_before(js, i, n - 1) + if sorts_before(js, n - 1, i) {
            1nat
        } else {
            0nat
        }
    }
}

/// The position of `js[i]` once the names are sorted.
pub open spec fn sorted_rank(js: Seq<Seq<char>>, i: int) -> nat {
    count_before(js, i, js.len() as int)
}

/// The names among the first `n` whose sorted position is below `excess`.
pub open spec fn oldest_upto(js: Seq<Seq<char>>, excess: nat, n: int) -> Seq<Seq<char>>
    decreases n,
{
    if n <= 0 {
        Seq::empty()
    } else {
        let prev = oldest_upto(js, excess, n - 1);
        if sorted_rank(js, n - 1) < excess {
            prev.push(js[n - 1])
        } else {
            prev
        }
    }
}

/// The files retention deletes: while more than `max_files` API log files
/// exist, the surplus with the smallest names (the names begin with their
/// timestamp, so these are the oldest); other files are never touched.
pub open spec fn retention_victims_v(names: Seq<Seq<char>>, max_files: nat) -> Seq<Seq<char>> {
    let js = json_names(names);
    if js.len() <= max_files {
        Seq::empty()
    } else {
        oldest_upto(js, (js.len() - max_files) as nat, js.len() as int)
    }
}

proof fn lemma_name_lt_irreflexive(a: Seq<char>)
    ensures
        !name_lt(a, a),
    decreases a.len(),
{
    if a.len() > 0 {
        lemma_name_lt_irreflexive(a.skip(1));
    }
}

proof fn lemma_name_lt_transitive(a: Seq<char>, b: Seq<char>, c: Seq<char>)
    requires
        name_lt(a, b),
        name_lt(b, c),
    ensures
        name_lt(a, c),
    decreases a.len(),
{
    if a.len() > 0 && b.len() > 0 && c.len() > 0 && a[0] == b[0] && b[0] == c[0] {
        lemma_name_lt_transitive(a.skip(1), b.skip(1), c.skip(1));
    }
}

proof fn lemma_sorts_before_transitive(js: Seq<Seq<char>>, k: int, j: int, i: int)
    requires
        sorts_before(js, k, j),
        sorts_before(js, j, i),
    ensures
        sorts_before(js, k, i),
{
    if name_lt(js[k], js[j]) && name_lt(js[j], js[i]) {
        lemma_name_lt_transitive(js[k], js[j], js[i]);
    }
}

/// Names sorting before `js[j]` also sort before `js[i]` when `js[j]` does,
/// and `js[j]` itself is one more: `js[i]` has a higher rank.
proof fn lemma_count_before_grows(js: Seq<Seq<char>>, j: int, i: int, n: int)
    requires
        0 <= j < js.len(),
        0 <= i < js.len(),
        sorts_before(js, j, i),
        0 <= n <= js.len(),
    ensures
        count_before(js, j, n) + (if j < n { 1int } else { 0int }) <= count_before(js, i, n),
    decreases n,
{
    if n > 0 {
        lemma_count_before_grows(js, j, i, n - 1);
        let k = n - 1;
        if sorts_before(js, k, j) {
            lemma_sorts_before_transitive(js, k, j, i);
        }
        if k == j {
            lemma_name_lt_irreflexive(js[j]);
            assert(!sorts_before(js, j, j));
        }
    }
}

/// Retention removes the oldest: no file that stays has a name sorting
/// before a file that is deleted.
pub proof fn law_retention_keeps_newest(names: Seq<Seq<char>>, max_files: nat, i: int, j: int)
    requires
        json_names(names).len() > max_files,
        0 <= i < json_names(names).len(),
        0 <= j < json_names(names).len(),
        sorted_rank(json_names(names), i) < json_names(names).len() - max_files,
        sorted_rank(json_names(names), j) >= json_names(names).len() - max_files,
    ensures
        !name_lt(json_names(names)[j], json_names(names)[i]),
{
    let js = json_names(names);
    if name_lt(js[j], js[i]) {
        lemma_count_before_grows(js, j, i, js.len() as int);
    }
}

fn json_name_list(names: &Vec<String>) -> (r: Vec<Vec<char>>)
    ensures
        r@.map_values(|c: Vec<char>| c@) == json_names(names@.map_values(|s: String| s@)),
{
    let ghost nv = names@.map_values(|s: String| s@);
    let suffix = str_chars(".json");
    let mut out: Vec<Vec<char>> = Vec::new();
    let mut i: usize = 0;
    assert(nv.take(0) =~= Seq::<Seq<char>>::empty());
    while i < names.len()
        invariant
            i <= names@.len(),
            nv == names@.map_values(|s: String| s@),
            suffix@ == ".json"@,
            out@.map_values(|c: Vec<char>| c@) == json_names(nv.take(i as int)),
        decreases names.len() - i,
    {
        assert(nv.take(i + 1).drop_last() =~= nv.take(i as int));
        assert(nv.take(i + 1).last() == names@[i as int]@);
        let v = str_chars(names[i].as_str());
        let ghost before = out@.map_values(|c: Vec<char>| c@);
        if crate::text::ends_with_exec(&v, &suffix) {
            out.push(v);
            assert(out@.map_values(|c: Vec<char>| c@) =~= before.push(names@[i as int]@));
        }
        i = i + 1;
    }
    assert(nv.take(names@.len() as int) =~= nv);
    out
}

fn rank_of(js: &Vec<Vec<char>>, i: usize) -> (r: usize)
    requires
        i < js@.len(),
    ensures
        r == sorted_rank(js@.map_values(|c: Vec<char>| c@), i as int),
{
    let ghost jv = js@.map_values(|c: Vec<char>| c@);
    let mut count: usize = 0;
    let mut j: usize = 0;
    while j < js.len()
        invariant
            i < js@.len(),
            j <= js@.len(),
            jv == js@.map_values(|c: Vec<char>| c@),
            count == count_before(jv, i as int, j as int),
            count <= j,
        decreases js.len() - j,
    {
        let b = if name_lt_exec(&js[j], &js[i]) {
            true
        } else {
            j < i && vec_chars_eq(&js[j], &js[i])
        };
        assert(b == sorts_before(jv, j as int, i as int));
        if b {
            count = count + 1;
        }
        j = j + 1;
    }
    count
}

fn vec_chars_eq(a: &Vec<char>, b: &Vec<char>) -> (r: bool)
    ensures
        r == (a@ == b@),
{
    if a.len() != b.len() {
        return false;
    }
    let mut i: usize = 0;
    while i < a.len()
        invariant
            a@.len() == b@.len(),
            i <= a@.len(),
            forall|k: int| 0 <= k < i ==> a@[k] == b@[k],
        decreases a.len() - i,
    {
        if a[i] != b[i] {
            return false;
        }
        i = i + 1;
    }
    assert(a@ =~= b@);
    true
}

/// The API log files to delete from a directory holding `names` so that at
/// most `max_files` remain (see `retention_victims_v`).
pub fn retention_victims(names: &Vec<String>, max_files: usize) -> (r: Vec<String>)
    ensures
        r@.map_values(|s: String| s@) == retention_victims_v(names@.map_values(|s: String| s@), max_files as nat),
{
    let js = json_name_list(names);
    let ghost jv = js@.map_values(|c: Vec<char>| c@);
    let mut out: Vec<String> = Vec::new();
    if js.len() <= max_files {
        assert(out@.map_values(|s: String| s@) =~= Seq::<Seq<char>>::empty());
        return out;
    }
    let excess = js.len() - max_files;
    let mut i: usize = 0;
    while i < js.len()
        invariant
            i <= js@.len(),
            jv == js@.map_values(|c: Vec<char>| c@),
            excess == jv.len() - max_files,
            out@.map_values(|s: String| s@) == oldest_upto(jv, excess as nat, i as int),
        decreases js.len() - i,
    {
        let ghost before = out@.map_values(|s: String| s@);
        if rank_of(&js, i) < excess {
            let s = string_from_chars(&js[i]);
            out.push(s);
            assert(out@.map_values(|s: String| s@) =~= before.push(jv[i as int]));
        }
        i = i + 1;
    }
    out
}

} // verus!
