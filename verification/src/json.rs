//! JSON values as the library reads and builds them.
//!
//! `JsonValue` mirrors `serde_json::Value` with insertion-ordered objects:
//! an object is a list of `(key, value)` entries with distinct keys, inserted
//! keys go last, replacing a key keeps its place and removing a key moves the
//! last entry into the freed place (the `preserve_order` behaviour of
//! `serde_json::Map`). Text is parsed and printed by serde_json.
use vstd::prelude::*;
use crate::text::{str_eq, to_owned_string};

verus! {

/// A JSON number: non-negative integers, negative integers, and floating point
/// numbers kept as their serde_json text.
#[derive(Debug, Clone)]
pub enum JsonNumber {
    PosInt(u64),
    NegInt(i64),
    Float(String),
}

#[derive(Debug)]
pub enum JsonValue {
    Null,
    Bool(bool),
    Number(JsonNumber),
    String(String),
    Array(Vec<JsonValue>),
    Object(Vec<(String, JsonValue)>),
}

/// The mathematical content of a `JsonValue` (strings as character sequences).
pub ghost enum JsonView {
    Null,
    Bool(bool),
    PosInt(u64),
    NegInt(i64),
    Float(Seq<char>),
    Str(Seq<char>),
    Array(Seq<JsonView>),
    Object(Seq<(Seq<char>, JsonView)>),
}

pub open spec fn jview(v: JsonValue) -> JsonView
    decreases v,
{
    match v {
        JsonValue::Null => JsonView::Null,
        JsonValue::Bool(b) => JsonView::Bool(b),
        JsonValue::Number(JsonNumber::PosInt(n)) => JsonView::PosInt(n),
        JsonValue::Number(JsonNumber::NegInt(n)) => JsonView::NegInt(n),
        JsonValue::Number(JsonNumber::Float(t)) => JsonView::Float(t@),
        JsonValue::String(s) => JsonView::Str(s@),
        JsonValue::Array(items) => JsonView::Array(
            Seq::new(
                items@.len(),
                |i: int|
                    if 0 <= i < items@.len() {
                        proof {
                            assert(decreases_to!(v => items));
                            assert(decreases_to!(items => items@));
                            assert(decreases_to!(items@ => items@[i]));
                        }
                        jview(items@[i])
                    } else {
                        JsonView::Null
                    },
            ),
        ),
        JsonValue::Object(es) => JsonView::Object(
            Seq::new(
                es@.len(),
                |i: int|
                    if 0 <= i < es@.len() {
                        proof {
                            assert(decreases_to!(v => es));
                            assert(decreases_to!(es => es@));
                            assert(decreases_to!(es@ => es@[i]));
                            assert(decreases_to!(es@[i] => es@[i].1));
                        }
                        (es@[i].0@, jview(es@[i].1))
                    } else {
                        (Seq::empty(), JsonView::Null)
                    },
            ),
        ),
    }
}

impl View for JsonValue {
    type V = JsonView;

    open spec fn view(&self) -> JsonView {
        jview(*self)
    }
}

// ---------------------------------------------------------------------------
// Object entries
// ---------------------------------------------------------------------------

pub type EntriesView = Seq<(Seq<char>, JsonView)>;

pub open spec fn entries_view(es: Seq<(String, JsonValue)>) -> EntriesView {
    Seq::new(es.len(), |i: int| (es[i].0@, jview(es[i].1)))
}

/// Index of the first entry with key `k`.
pub open spec fn key_index(es: EntriesView, k: Seq<char>) -> Option<int> {
    if exists|i: int| 0 <= i < es.len() && (#[trigger] es[i]).0 == k {
        Some(
            choose|i: int|
                0 <= i < es.len() && (#[trigger] es[i]).0 == k && forall|j: int|
                    0 <= j < i ==> (#[trigger] es[j]).0 != k,
        )
    } else {
        None
    }
}

/// `Map::get`.
pub open spec fn entries_get(es: EntriesView, k: Seq<char>) -> Option<JsonView> {
    match key_index(es, k) {
        Some(i) => Some(es[i].1),
        None => None,
    }
}

/// `Map::insert`: replace the value in place, or append.
pub open spec fn entries_insert(es: EntriesView, k: Seq<char>, v: JsonView) -> EntriesView {
    match key_index(es, k) {
        Some(i) => es.update(i, (k, v)),
        None => es.push((k, v)),
    }
}

/// `Map::remove` (swap-remove: the last entry takes the freed place).
pub open spec fn entries_remove(es: EntriesView, k: Seq<char>) -> EntriesView {
    match key_index(es, k) {
        Some(i) => es.update(i, es.last()).drop_last(),
        None => es,
    }
}

/// `value.get(key)`: the member of an object, `None` otherwise.
pub open spec fn spec_get(v: JsonView, k: Seq<char>) -> Option<JsonView> {
    match v {
        JsonView::Object(es) => entries_get(es, k),
        _ => None,
    }
}

/// `value.as_str()`.
pub open spec fn spec_as_str(v: JsonView) -> Option<Seq<char>> {
    match v {
        JsonView::Str(s) => Some(s),
        _ => None,
    }
}

/// `value.get(key).and_then(as_str)`.
pub open spec fn spec_get_str(v: JsonView, k: Seq<char>) -> Option<Seq<char>> {
    match spec_get(v, k) {
        Some(x) => spec_as_str(x),
        None => None,
    }
}

/// `value.as_u64()`.
pub open spec fn spec_as_u64(v: JsonView) -> Option<u64> {
    match v {
        JsonView::PosInt(n) => Some(n),
        _ => None,
    }
}

/// `value.as_bool()`.
pub open spec fn spec_as_bool(v: JsonView) -> Option<bool> {
    match v {
        JsonView::Bool(b) => Some(b),
        _ => None,
    }
}

pub fn find_key(es: &Vec<(String, JsonValue)>, k: &str) -> (r: Option<usize>)
    ensures
        match r {
            Some(i) => key_index(entries_view(es@), k@) == Some(i as int) && i < es@.len(),
            None => key_index(entries_view(es@), k@) is None,
        },
{
    let ghost ev = entries_view(es@);
    let mut i: usize = 0;
    while i < es.len()
        invariant
            i <= es@.len(),
            ev == entries_view(es@),
            forall|j: int| 0 <= j < i ==> (#[trigger] ev[j]).0 != k@,
        decreases es.len() - i,
    {
        if str_eq(es[i].0.as_str(), k) {
            let ghost ki = key_index(ev, k@);
            assert(ki == Some(i as int)) by {
                assert(ev[i as int].0 == k@);
                let c = ki.unwrap();
                if c < i {
                    assert(ev[c].0 != k@);
                } else if c > i {
                    assert(ev[i as int].0 == k@);
                }
            }
            return Some(i);
        }
        i = i + 1;
    }
    None
}

impl JsonValue {
    /// `Value::get` for a string key.
    pub fn get(&self, k: &str) -> (r: Option<&JsonValue>)
        ensures
            match r {
                Some(x) => spec_get(self@, k@) == Some(x@),
                None => spec_get(self@, k@) is None,
            },
    {
        match self {
            JsonValue::Object(es) => {
                proof {
                    lemma_object_view(*es);
                }
                match find_key(es, k) {
                    Some(i) => Some(&es[i].1),
                    None => None,
                }
            },
            _ => None,
        }
    }

    pub fn as_str(&self) -> (r: Option<&str>)
        ensures
            match r {
                Some(s) => spec_as_str(self@) == Some(s@),
                None => spec_as_str(self@) is None,
            },
    {
        match self {
            JsonValue::String(s) => Some(s.as_str()),
            _ => None,
        }
    }

    pub fn as_u64(&self) -> (r: Option<u64>)
        ensures
            r == spec_as_u64(self@),
    {
        match self {
            JsonValue::Number(JsonNumber::PosInt(n)) => Some(*n),
            _ => None,
        }
    }

    pub fn as_bool(&self) -> (r: Option<bool>)
        ensures
            r == spec_as_bool(self@),
    {
        match self {
            JsonValue::Bool(b) => Some(*b),
            _ => None,
        }
    }

    pub fn is_null(&self) -> (r: bool)
        ensures
            r == (self@ is Null),
    {
        match self {
            JsonValue::Null => true,
            _ => false,
        }
    }

    pub fn is_object(&self) -> (r: bool)
        ensures
            r == (self@ is Object),
    {
        match self {
            JsonValue::Object(_) => true,
            _ => false,
        }
    }

    /// `value.get(key).and_then(as_str)` as an owned string.
    pub fn get_str(&self, k: &str) -> (r: Option<String>)
        ensures
            match r {
                Some(s) => spec_get_str(self@, k@) == Some(s@),
                None => spec_get_str(self@, k@) is None,
            },
    {
        match self.get(k) {
            Some(x) => match x.as_str() {
                Some(s) => Some(to_owned_string(s)),
                None => None,
            },
            None => None,
        }
    }

    /// A deep copy.
    pub fn deep_copy(&self) -> (r: JsonValue)
        ensures
            r@ == self@,
        decreases self,
    {
        match self {
            JsonValue::Null => JsonValue::Null,
            JsonValue::Bool(b) => JsonValue::Bool(*b),
            JsonValue::Number(n) => JsonValue::Number(
                match n {
                    JsonNumber::PosInt(x) => JsonNumber::PosInt(*x),
                    JsonNumber::NegInt(x) => JsonNumber::NegInt(*x),
                    JsonNumber::Float(t) => JsonNumber::Float(t.clone()),
                },
            ),
            JsonValue::String(s) => JsonValue::String(s.clone()),
            JsonValue::Array(items) => {
                let mut out: Vec<JsonValue> = Vec::new();
                let mut i: usize = 0;
                while i < items.len()
                    invariant
                        *self == JsonValue::Array(*items),
                        i <= items@.len(),
                        out@.len() == i,
                        forall|j: int| 0 <= j < i ==> (#[trigger] out@[j])@ == items@[j]@,
                    decreases items.len() - i,
                {
                    proof {
                        assert(decreases_to!(*self => (*self)->Array_0));
                        assert(decreases_to!(*items => items@));
                        assert(decreases_to!(items@ => items@[i as int]));
                    }
                    let c = items[i].deep_copy();
                    out.push(c);
                    i = i + 1;
                }
                proof {
                    lemma_array_view(out);
                    lemma_array_view(*items);
                    assert(items_view(out@) =~= items_view(items@));
                }
                JsonValue::Array(out)
            },
            JsonValue::Object(es) => {
                let mut out: Vec<(String, JsonValue)> = Vec::new();
                let mut i: usize = 0;
                while i < es.len()
                    invariant
                        *self == JsonValue::Object(*es),
                        i <= es@.len(),
                        out@.len() == i,
                        forall|j: int| 0 <= j < i ==> (#[trigger] out@[j]).0@ == es@[j].0@ && out@[j].1@ == es@[j].1@,
                    decreases es.len() - i,
                {
                    proof {
                        assert(decreases_to!(*self => (*self)->Object_0));
                        assert(decreases_to!(*es => es@));
                        assert(decreases_to!(es@ => es@[i as int]));
                        assert(decreases_to!(es@[i as int] => es@[i as int].1));
                    }
                    let c = es[i].1.deep_copy();
                    out.push((es[i].0.clone(), c));
                    i = i + 1;
                }
                proof {
                    lemma_object_view(out);
                    lemma_object_view(*es);
                    assert(entries_view(out@) =~= entries_view(es@));
                }
                JsonValue::Object(out)
            },
        }
    }
}

pub proof fn lemma_object_view(es: Vec<(String, JsonValue)>)
    ensures
        JsonValue::Object(es)@ == JsonView::Object(entries_view(es@)),
{
    let x = JsonValue::Object(es)@->Object_0;
    assert(x =~= entries_view(es@));
}

pub open spec fn items_view(items: Seq<JsonValue>) -> Seq<JsonView> {
    Seq::new(items.len(), |i: int| jview(items[i]))
}

pub proof fn lemma_array_view(items: Vec<JsonValue>)
    ensures
        JsonValue::Array(items)@ == JsonView::Array(items_view(items@)),
{
    let x = JsonValue::Array(items)@->Array_0;
    assert(x =~= items_view(items@));
}

/// `Map::insert` on an entry list.
pub fn object_insert(es: &mut Vec<(String, JsonValue)>, k: String, v: JsonValue)
    ensures
        entries_view(final(es)@) == entries_insert(entries_view(old(es)@), k@, v@),
{
    let ghost before = entries_view(es@);
    match find_key(es, k.as_str()) {
        Some(i) => {
            es.set(i, (k, v));
            assert(entries_view(es@) =~= before.update(i as int, (k@, v@)));
        },
        None => {
            es.push((k, v));
            assert(entries_view(es@) =~= before.push((k@, v@)));
        },
    }
}

/// `Map::remove` on an entry list (swap-remove).
pub fn object_remove(es: &mut Vec<(String, JsonValue)>, k: &str)
    ensures
        entries_view(final(es)@) == entries_remove(entries_view(old(es)@), k@),
{
    let ghost before = entries_view(es@);
    match find_key(es, k) {
        Some(i) => {
            let last = es.pop().unwrap();
            if i < es.len() {
                es.set(i, last);
            }
            assert(entries_view(es@) =~= before.update(i as int, before.last()).drop_last());
        },
        None => {},
    }
}

/// Copies `src[key]` into `dst` when present and not null.
pub fn copy_if_present(dst: &mut Vec<(String, JsonValue)>, src: &JsonValue, key: &str)
    ensures
        entries_view(final(dst)@) == match spec_get(src@, key@) {
            Some(v) => if v is Null {
                entries_view(old(dst)@)
            } else {
                entries_insert(entries_view(old(dst)@), key@, v)
            },
            None => entries_view(old(dst)@),
        },
{
    match src.get(key) {
        Some(v) => {
            if !v.is_null() {
                object_insert(dst, to_owned_string(key), v.deep_copy());
            }
        },
        None => {},
    }
}

/// `value[key] = member` on an object: replaces the member in place or
/// appends it.
pub fn set_member(v: &mut JsonValue, k: String, member: JsonValue)
    requires
        old(v)@ is Object,
    ensures
        final(v)@ == JsonView::Object(entries_insert(old(v)@->Object_0, k@, member@)),
{
    let mut taken = JsonValue::Null;
    std::mem::swap(&mut taken, v);
    match taken {
        JsonValue::Object(mut es) => {
            proof {
                lemma_object_view(es);
            }
            object_insert(&mut es, k, member);
            proof {
                lemma_object_view(es);
            }
            *v = JsonValue::Object(es);
        },
        other => {
            *v = other;
        },
    }
}

/// `entries_get` in terms of `key_index`.
pub proof fn lemma_entries_get_find(es: Seq<(String, JsonValue)>, k: Seq<char>)
    ensures
        match key_index(entries_view(es), k) {
            Some(i) => 0 <= i < es.len() && entries_get(entries_view(es), k) == Some(jview(es[i].1)),
            None => entries_get(entries_view(es), k) is None,
        },
{
    let ev = entries_view(es);
    if exists|i: int| 0 <= i < ev.len() && (#[trigger] ev[i]).0 == k {
        let w = choose|i: int| 0 <= i < ev.len() && (#[trigger] ev[i]).0 == k;
        lemma_first_key(ev, k, w);
    }
    match key_index(ev, k) {
        Some(i) => {
            assert(0 <= i < ev.len());
            assert(ev[i].1 == jview(es[i].1));
        },
        None => {},
    }
}

proof fn lemma_first_key(ev: EntriesView, k: Seq<char>, w: int)
    requires
        0 <= w < ev.len(),
        ev[w].0 == k,
    ensures
        exists|i: int|
            0 <= i < ev.len() && (#[trigger] ev[i]).0 == k && forall|j: int|
                0 <= j < i ==> (#[trigger] ev[j]).0 != k,
    decreases w,
{
    if exists|j: int| 0 <= j < w && (#[trigger] ev[j]).0 == k {
        let j = choose|j: int| 0 <= j < w && (#[trigger] ev[j]).0 == k;
        lemma_first_key(ev, k, j);
    } else {
        assert(forall|j: int| 0 <= j < w ==> (#[trigger] ev[j]).0 != k);
    }
}

/// No two entries share a key (what a parsed JSON object always is).
pub open spec fn keys_unique(es: EntriesView) -> bool {
    forall|i: int, j: int| 0 <= i < j < es.len() ==> (#[trigger] es[i]).0 != (#[trigger] es[j]).0
}

/// Every object in the value, nested ones included, has distinct keys, as
/// every serde_json `Map` has.
pub open spec fn json_keys_unique(v: JsonView) -> bool
    decreases v,
{
    match v {
        JsonView::Array(xs) => forall|i: int| 0 <= i < xs.len() ==> json_keys_unique(#[trigger] xs[i]),
        JsonView::Object(es) => keys_unique(es) && forall|i: int|
            0 <= i < es.len() ==> json_keys_unique(#[trigger] es[i].1),
        _ => true,
    }
}

/// A member of an object with distinct keys throughout has them too.
pub proof fn lemma_member_keys_unique(es: EntriesView, i: int)
    requires
        json_keys_unique(JsonView::Object(es)),
        0 <= i < es.len(),
    ensures
        keys_unique(es),
        json_keys_unique(es[i].1),
{
    let v = JsonView::Object(es);
    assert(decreases_to!(v => v->Object_0));
    assert(decreases_to!(es => es[i]));
    assert(decreases_to!(es[i] => es[i].1));
}

/// What `key_index` picks: the first entry with the key, if any.
pub proof fn lemma_key_index(es: EntriesView, k: Seq<char>)
    ensures
        match key_index(es, k) {
            Some(i) => 0 <= i < es.len() && es[i].0 == k && forall|j: int| 0 <= j < i ==> (#[trigger] es[j]).0 != k,
            None => forall|i: int| 0 <= i < es.len() ==> (#[trigger] es[i]).0 != k,
        },
{
    if exists|i: int| 0 <= i < es.len() && (#[trigger] es[i]).0 == k {
        let w = choose|i: int| 0 <= i < es.len() && (#[trigger] es[i]).0 == k;
        lemma_first_key(es, k, w);
    }
}

pub proof fn lemma_key_index_is(es: EntriesView, k: Seq<char>, i: int)
    requires
        0 <= i < es.len(),
        es[i].0 == k,
        forall|j: int| 0 <= j < i ==> (#[trigger] es[j]).0 != k,
    ensures
        key_index(es, k) == Some(i),
{
    lemma_key_index(es, k);
    let f = key_index(es, k)->0;
    if f < i {
        assert(es[f].0 != k);
    } else if f > i {
        assert(es[i].0 != k);
    }
}

pub proof fn lemma_key_index_none(es: EntriesView, k: Seq<char>)
    requires
        forall|i: int| 0 <= i < es.len() ==> (#[trigger] es[i]).0 != k,
    ensures
        key_index(es, k) is None,
{
    lemma_key_index(es, k);
    if key_index(es, k) is Some {
        let f = key_index(es, k)->0;
        assert(es[f].0 == k);
    }
}

/// Read after write on an object's members: the key holds the value just
/// inserted, and every other key keeps what it held.
pub proof fn law_get_after_insert(es: EntriesView, k: Seq<char>, v: JsonView, other: Seq<char>)
    ensures
        entries_get(entries_insert(es, k, v), k) == Some(v),
        other != k ==> entries_get(entries_insert(es, k, v), other) == entries_get(es, other),
        keys_unique(es) ==> keys_unique(entries_insert(es, k, v)),
{
    lemma_key_index(es, k);
    lemma_key_index(es, other);
    let r = entries_insert(es, k, v);
    match key_index(es, k) {
        Some(i) => {
            lemma_key_index_is(r, k, i);
            if other != k {
                match key_index(es, other) {
                    Some(j) => lemma_key_index_is(r, other, j),
                    None => lemma_key_index_none(r, other),
                }
            }
        },
        None => {
            lemma_key_index_is(r, k, es.len() as int);
            if other != k {
                match key_index(es, other) {
                    Some(j) => lemma_key_index_is(r, other, j),
                    None => lemma_key_index_none(r, other),
                }
            }
        },
    }
}

/// A removed key is gone and every other key keeps what it held (for
/// members without repeated keys, as parsed objects are).
pub proof fn law_get_after_remove(es: EntriesView, k: Seq<char>, other: Seq<char>)
    requires
        keys_unique(es),
    ensures
        entries_get(entries_remove(es, k), k) is None,
        other != k ==> entries_get(entries_remove(es, k), other) == entries_get(es, other),
        keys_unique(entries_remove(es, k)),
{
    lemma_key_index(es, k);
    lemma_key_index(es, other);
    let r = entries_remove(es, k);
    match key_index(es, k) {
        Some(i) => {
            let n = es.len() - 1;
            assert(r.len() == n);
            assert forall|a: int| 0 <= a < r.len() implies (#[trigger] r[a]).0 != k by {
                if a == i {
                    assert(r[a] == es[n]);
                    if n != i {
                        assert(es[i].0 != es[n].0);
                    }
                } else {
                    assert(r[a] == es[a]);
                    if a < i {
                    } else {
                        assert(es[a].0 != es[i].0);
                    }
                }
            }
            lemma_key_index_none(r, k);
            assert forall|a: int, b: int| 0 <= a < b < r.len() implies (#[trigger] r[a]).0 != (#[trigger] r[b]).0 by {
                if a == i {
                    assert(r[a] == es[n]);
                    assert(r[b] == es[b]);
                } else if b == i {
                    assert(r[b] == es[n]);
                    assert(r[a] == es[a]);
                } else {
                    assert(r[a] == es[a]);
                    assert(r[b] == es[b]);
                }
            }
            if other != k {
                match key_index(es, other) {
                    Some(j) => {
                        if j == n {
                            assert(r[i] == es[n]);
                            assert forall|a: int| 0 <= a < i implies (#[trigger] r[a]).0 != other by {
                                assert(r[a] == es[a]);
                                assert(es[a].0 != es[n].0);
                            }
                            lemma_key_index_is(r, other, i);
                        } else {
                            assert(j != i);
                            assert(r[j] == es[j]);
                            assert forall|a: int| 0 <= a < j implies (#[trigger] r[a]).0 != other by {
                                if a == i {
                                    assert(r[a] == es[n]);
                                    assert(es[n].0 != es[j].0);
                                } else {
                                    assert(r[a] == es[a]);
                                }
                            }
                            lemma_key_index_is(r, other, j);
                        }
                    },
                    None => {
                        assert forall|a: int| 0 <= a < r.len() implies (#[trigger] r[a]).0 != other by {
                            if a == i {
                                assert(r[a] == es[n]);
                            } else {
                                assert(r[a] == es[a]);
                            }
                        }
                        lemma_key_index_none(r, other);
                    },
                }
            }
        },
        None => {},
    }
}

// ---------------------------------------------------------------------------
// Text (serde_json)
// ---------------------------------------------------------------------------

#[verifier::external_type_specification]
#[verifier::external_body]
pub struct ExSerdeJsonValue(serde_json::Value);

#[verifier::external_type_specification]
#[verifier::external_body]
pub struct ExSerdeJsonNumber(serde_json::Number);

/// Converts a serde_json value into a `JsonValue`, variant for variant.
#[verifier::external_body]
pub(crate) fn from_serde(v: serde_json::Value) -> JsonValue {
    match v {
        serde_json::Value::Null => JsonValue::Null,
        serde_json::Value::Bool(b) => JsonValue::Bool(b),
        serde_json::Value::Number(n) => JsonValue::Number(number_from_serde(n)),
        serde_json::Value::String(s) => JsonValue::String(s),
        serde_json::Value::Array(a) => JsonValue::Array(a.into_iter().map(from_serde).collect()),
        serde_json::Value::Object(m) => JsonValue::Object(m.into_iter().map(|(k, x)| (k, from_serde(x))).collect()),
    }
}

/// A serde_json number as a `JsonNumber` (`as_u64`, else `as_i64`, else its text).
#[verifier::external_body]
fn number_from_serde(n: serde_json::Number) -> JsonNumber {
    match (n.as_u64(), n.as_i64()) {
        (Some(u), _) => JsonNumber::PosInt(u),
        (None, Some(i)) => JsonNumber::NegInt(i),
        _ => JsonNumber::Float(n.to_string()),
    }
}

/// A `JsonNumber` as a serde_json value (text parsed back by `Number::from_str`).
#[verifier::external_body]
fn number_to_serde(n: &JsonNumber) -> serde_json::Value {
    match n {
        JsonNumber::PosInt(u) => serde_json::Value::from(*u),
        JsonNumber::NegInt(i) => serde_json::Value::from(*i),
        JsonNumber::Float(t) => t.parse::<serde_json::Number>().map_or(serde_json::Value::Null, serde_json::Value::Number),
    }
}

/// Converts a `JsonValue` into a serde_json value, variant for variant.
#[verifier::external_body]
pub(crate) fn to_serde(v: &JsonValue) -> serde_json::Value {
    match v {
        JsonValue::Null => serde_json::Value::Null,
        JsonValue::Bool(b) => serde_json::Value::Bool(*b),
        JsonValue::Number(n) => number_to_serde(n),
        JsonValue::String(s) => serde_json::Value::String(s.clone()),
        JsonValue::Array(a) => serde_json::Value::Array(a.iter().map(to_serde).collect()),
        JsonValue::Object(es) => serde_json::Value::Object(es.iter().map(|(k, x)| (k.clone(), to_serde(x))).collect()),
    }
}

/// What `serde_json::from_str::<serde_json::Value>` yields for a text: the
/// value, or the error's message when the text is not JSON.
pub uninterp spec fn spec_json_parse(text: Seq<char>) -> Result<JsonView, Seq<char>>;

/// What `serde_json::to_string` prints for a value (compact form).
pub uninterp spec fn spec_json_text(v: JsonView) -> Seq<char>;

pub open spec fn parsed_as(r: Result<JsonValue, String>, text: Seq<char>) -> bool {
    match r {
        Ok(v) => spec_json_parse(text) == Ok::<JsonView, Seq<char>>(v@),
        Err(e) => spec_json_parse(text) == Err::<JsonView, Seq<char>>(e@),
    }
}

/// `serde_json::from_str`; the result is named by `spec_json_parse`. Its
/// objects are serde_json `Map`s, which hold each key once.
#[verifier::external_body]
pub(crate) fn json_parse(text: &str) -> (r: Result<JsonValue, String>)
    ensures
        match r {
            Ok(v) => spec_json_parse(text@) == Ok::<JsonView, Seq<char>>(v@),
            Err(e) => spec_json_parse(text@) == Err::<JsonView, Seq<char>>(e@),
        },
        r is Ok ==> json_keys_unique(r->Ok_0@),
{
    serde_json::from_str::<serde_json::Value>(text).map(from_serde).map_err(|e| e.to_string())
}

/// `serde_json::to_string`; the result is named by `spec_json_text`.
#[verifier::external_body]
pub(crate) fn json_to_string(v: &JsonValue) -> (r: String)
    ensures
        r@ == spec_json_text(v@),
{
    serde_json::to_string(&to_serde(v)).unwrap_or_default()
}

/// Parses JSON text (serde_json) into a `JsonValue`.
pub fn parse_json(text: &str) -> (r: Result<JsonValue, String>)
    ensures
        parsed_as(r, text@),
        r is Ok ==> json_keys_unique(r->Ok_0@),
{
    json_parse(text)
}

/// Prints a `JsonValue` as compact JSON text (serde_json).
pub fn to_json_text(v: &JsonValue) -> (r: String)
    ensures
        r@ == spec_json_text(v@),
{
    json_to_string(v)
}

} // verus!
