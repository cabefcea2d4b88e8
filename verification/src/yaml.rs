//! YAML values as the DSH patch logic reads and builds them.
//!
//! `YamlValue` mirrors `serde_yaml::Value`: a mapping is a list of
//! `(key, value)` entries in file order. Text is parsed by serde_yaml, and
//! values are converted to and from JSON by serde_yaml / serde_json.
use vstd::prelude::*;
use crate::json::{JsonValue, JsonView, to_serde, from_serde, keys_unique, key_index, entries_get, lemma_key_index};
use crate::text::str_eq;
use serde_yaml::Value as SerdeYaml;

verus! {

/// A YAML number: non-negative and negative integers, and other numbers
/// kept as their serde_yaml text.
#[derive(Debug)]
pub enum YamlNumber {
    PosInt(u64),
    NegInt(i64),
    Float(String),
}

#[derive(Debug)]
pub enum YamlValue {
    Null,
    Bool(bool),
    Number(YamlNumber),
    String(String),
    Sequence(Vec<YamlValue>),
    Mapping(Vec<(YamlValue, YamlValue)>),
    /// A `!tag value` node: the tag's text and the tagged value.
    Tagged(String, Box<YamlValue>),
}

/// The mathematical content of a `YamlValue`.
pub ghost enum YamlView {
    Null,
    Bool(bool),
    PosInt(u64),
    NegInt(i64),
    Float(Seq<char>),
    Str(Seq<char>),
    Items(Seq<YamlView>),
    Entries(Seq<(YamlView, YamlView)>),
    Tagged(Seq<char>, Box<YamlView>),
}

pub open spec fn yview(v: YamlValue) -> YamlView
    decreases v,
{
    match v {
        YamlValue::Null => YamlView::Null,
        YamlValue::Bool(b) => YamlView::Bool(b),
        YamlValue::Number(YamlNumber::PosInt(n)) => YamlView::PosInt(n),
        YamlValue::Number(YamlNumber::NegInt(n)) => YamlView::NegInt(n),
        YamlValue::Number(YamlNumber::Float(t)) => YamlView::Float(t@),
        YamlValue::String(s) => YamlView::Str(s@),
        YamlValue::Sequence(items) => YamlView::Items(
            Seq::new(
                items@.len(),
                |i: int|
                    if 0 <= i < items@.len() {
                        proof {
                            assert(decreases_to!(v => items));
                            assert(decreases_to!(items => items@));
                            assert(decreases_to!(items@ => items@[i]));
                        }
                        yview(items@[i])
                    } else {
                        YamlView::Null
                    },
            ),
        ),
        YamlValue::Mapping(es) => YamlView::Entries(
            Seq::new(
                es@.len(),
                |i: int|
                    if 0 <= i < es@.len() {
                        proof {
                            assert(decreases_to!(v => es));
                            assert(decreases_to!(es => es@));
                            assert(decreases_to!(es@ => es@[i]));
                            assert(decreases_to!(es@[i] => es@[i].0));
                            assert(decreases_to!(es@[i] => es@[i].1));
                        }
                        (yview(es@[i].0), yview(es@[i].1))
                    } else {
                        (YamlView::Null, YamlView::Null)
                    },
            ),
        ),
        YamlValue::Tagged(t, b) => YamlView::Tagged(t@, Box::new(yview(*b))),
    }
}

impl View for YamlValue {
    type V = YamlView;

    open spec fn view(&self) -> YamlView {
        yview(*self)
    }
}

pub open spec fn yitems_view(items: Seq<YamlValue>) -> Seq<YamlView> {
    Seq::new(items.len(), |i: int| yview(items[i]))
}

pub open spec fn ymap_view(es: Seq<(YamlValue, YamlValue)>) -> Seq<(YamlView, YamlView)> {
    Seq::new(es.len(), |i: int| (yview(es[i].0), yview(es[i].1)))
}

pub proof fn lemma_seq_view(items: Vec<YamlValue>)
    ensures
        YamlValue::Sequence(items)@ == YamlView::Items(yitems_view(items@)),
{
    let x = YamlValue::Sequence(items)@->Items_0;
    assert(x =~= yitems_view(items@));
}

pub proof fn lemma_map_view(es: Vec<(YamlValue, YamlValue)>)
    ensures
        YamlValue::Mapping(es)@ == YamlView::Entries(ymap_view(es@)),
{
    let x = YamlValue::Mapping(es)@->Entries_0;
    assert(x =~= ymap_view(es@));
}

/// Index of the first entry whose key is the string `k`.
pub open spec fn ykey_index(es: Seq<(YamlView, YamlView)>, k: Seq<char>) -> Option<int> {
    if exists|i: int| 0 <= i < es.len() && (#[trigger] es[i]).0 == YamlView::Str(k) {
        Some(
            choose|i: int|
                0 <= i < es.len() && (#[trigger] es[i]).0 == YamlView::Str(k) && forall|j: int|
                    0 <= j < i ==> (#[trigger] es[j]).0 != YamlView::Str(k),
        )
    } else {
        None
    }
}

/// `value.as_mapping().and_then(|m| m.get(k))`.
pub open spec fn yget(v: YamlView, k: Seq<char>) -> Option<YamlView> {
    match v {
        YamlView::Entries(es) => match ykey_index(es, k) {
            Some(i) => Some(es[i].1),
            None => None,
        },
        _ => None,
    }
}

pub open spec fn yas_str(v: YamlView) -> Option<Seq<char>> {
    match v {
        YamlView::Str(s) => Some(s),
        _ => None,
    }
}

#[verifier::spinoff_prover]
#[verifier::rlimit(40)]
pub fn find_ykey(es: &Vec<(YamlValue, YamlValue)>, k: &str) -> (r: Option<usize>)
    ensures
        match r {
            Some(i) => ykey_index(ymap_view(es@), k@) == Some(i as int) && i < es@.len(),
            None => ykey_index(ymap_view(es@), k@) is None,
        },
{
    let ghost ev = ymap_view(es@);
    let mut i: usize = 0;
    while i < es.len()
        invariant
            i <= es@.len(),
            ev == ymap_view(es@),
            forall|j: int| 0 <= j < i ==> (#[trigger] ev[j]).0 != YamlView::Str(k@),
        decreases es.len() - i,
    {
        let hit = match &es[i].0 {
            YamlValue::String(s) => str_eq(s.as_str(), k),
            _ => false,
        };
        if hit {
            let ghost ki = ykey_index(ev, k@);
            assert(ki == Some(i as int)) by {
                assert(ev[i as int].0 == YamlView::Str(k@));
                let c = ki.unwrap();
                if c < i {
                    assert(ev[c].0 != YamlView::Str(k@));
                }
            }
            return Some(i);
        }
        assert(ev[i as int].0 != YamlView::Str(k@));
        i = i + 1;
    }
    None
}

impl YamlValue {
    /// `as_mapping().and_then(|m| m.get(k))`.
    pub fn get(&self, k: &str) -> (r: Option<&YamlValue>)
        ensures
            match r {
                Some(x) => yget(self@, k@) == Some(x@),
                None => yget(self@, k@) is None,
            },
    {
        match self {
            YamlValue::Mapping(es) => {
                proof {
                    lemma_map_view(*es);
                }
                match find_ykey(es, k) {
                    Some(i) => Some(&es[i].1),
                    None => None,
                }
            },
            _ => None,
        }
    }

    pub fn as_str(&self) -> (r: Option<&str>)
        ensures
            match r {
                Some(s) => yas_str(self@) == Some(s@),
                None => yas_str(self@) is None,
            },
    {
        match self {
            YamlValue::String(s) => Some(s.as_str()),
            _ => None,
        }
    }
}

// ---------------------------------------------------------------------------
// Plain values: what converts between JSON and YAML member for member
// ---------------------------------------------------------------------------

/// A JSON value without floats, whose negative-integer nodes are negative
/// and whose objects repeat no key (as serde_json builds them).
pub open spec fn json_plain(v: JsonView) -> bool
    decreases v,
{
    match v {
        JsonView::Float(_) => false,
        JsonView::NegInt(n) => n < 0,
        JsonView::Array(xs) => forall|i: int| 0 <= i < xs.len() ==> json_plain(#[trigger] xs[i]),
        JsonView::Object(es) => keys_unique(es) && forall|i: int| 0 <= i < es.len() ==> json_plain(#[trigger] es[i].1),
        _ => true,
    }
}

/// The YAML value with the same content as a JSON value: strings, booleans,
/// integers and null as they are, arrays as sequences, objects as mappings
/// with string keys in the same order.
pub open spec fn yaml_image(v: JsonView) -> YamlView
    decreases v,
{
    match v {
        JsonView::Null => YamlView::Null,
        JsonView::Bool(b) => YamlView::Bool(b),
        JsonView::PosInt(n) => YamlView::PosInt(n),
        JsonView::NegInt(n) => YamlView::NegInt(n),
        JsonView::Float(t) => YamlView::Float(t),
        JsonView::Str(s) => YamlView::Str(s),
        JsonView::Array(xs) => YamlView::Items(
            Seq::new(xs.len(), |i: int| if 0 <= i < xs.len() { yaml_image(xs[i]) } else { YamlView::Null }),
        ),
        JsonView::Object(es) => YamlView::Entries(
            Seq::new(
                es.len(),
                |i: int|
                    if 0 <= i < es.len() {
                        (YamlView::Str(es[i].0), yaml_image(es[i].1))
                    } else {
                        (YamlView::Null, YamlView::Null)
                    },
            ),
        ),
    }
}

/// A YAML value without floats or tags, whose negative-integer nodes are
/// negative and whose mappings have distinct string keys.
pub open spec fn yaml_plain(v: YamlView) -> bool
    decreases v,
{
    match v {
        YamlView::Float(_) => false,
        YamlView::Tagged(_, _) => false,
        YamlView::NegInt(n) => n < 0,
        YamlView::Items(xs) => forall|i: int| 0 <= i < xs.len() ==> yaml_plain(#[trigger] xs[i]),
        YamlView::Entries(es) => (forall|i: int| 0 <= i < es.len() ==> (#[trigger] es[i]).0 is Str && yaml_plain(es[i].1))
            && forall|i: int, j: int| 0 <= i < j < es.len() ==> (#[trigger] es[i]).0 != (#[trigger] es[j]).0,
        _ => true,
    }
}

/// The JSON value with the same content as a plain YAML value.
pub open spec fn json_image(v: YamlView) -> JsonView
    decreases v,
{
    match v {
        YamlView::Null => JsonView::Null,
        YamlView::Bool(b) => JsonView::Bool(b),
        YamlView::PosInt(n) => JsonView::PosInt(n),
        YamlView::NegInt(n) => JsonView::NegInt(n),
        YamlView::Float(t) => JsonView::Float(t),
        YamlView::Str(s) => JsonView::Str(s),
        YamlView::Items(xs) => JsonView::Array(
            Seq::new(xs.len(), |i: int| if 0 <= i < xs.len() { json_image(xs[i]) } else { JsonView::Null }),
        ),
        YamlView::Entries(es) => JsonView::Object(
            Seq::new(
                es.len(),
                |i: int|
                    if 0 <= i < es.len() {
                        (
                            match es[i].0 {
                                YamlView::Str(s) => s,
                                _ => Seq::empty(),
                            },
                            json_image(es[i].1),
                        )
                    } else {
                        (Seq::empty(), JsonView::Null)
                    },
            ),
        ),
        YamlView::Tagged(_, _) => JsonView::Null,
    }
}

/// The YAML image of a plain JSON value is plain and converts back to it.
pub proof fn lemma_plain_image(v: JsonView)
    requires
        json_plain(v),
    ensures
        yaml_plain(yaml_image(v)),
        json_image(yaml_image(v)) == v,
    decreases v,
{
    match v {
        JsonView::Array(xs) => {
            let ys = yaml_image(v)->Items_0;
            assert forall|i: int| 0 <= i < xs.len() implies yaml_plain(#[trigger] ys[i]) && json_image(ys[i]) == xs[i] by {
                lemma_plain_image(xs[i]);
            }
            assert(json_image(yaml_image(v))->Array_0 =~= xs);
        },
        JsonView::Object(es) => {
            let ys = yaml_image(v)->Entries_0;
            assert forall|i: int| 0 <= i < es.len() implies (#[trigger] ys[i]).0 is Str && yaml_plain(ys[i].1) && json_image(ys[i].1) == es[i].1 by {
                lemma_plain_image(es[i].1);
            }
            assert forall|i: int, j: int| 0 <= i < j < ys.len() implies (#[trigger] ys[i]).0 != (#[trigger] ys[j]).0 by {
                assert(es[i].0 != es[j].0);
            }
            let back = json_image(yaml_image(v))->Object_0;
            assert forall|i: int| 0 <= i < es.len() implies #[trigger] back[i] == es[i] by {
                lemma_plain_image(es[i].1);
            }
            assert(back =~= es);
        },
        _ => {},
    }
}

/// What `ykey_index` picks: the first entry keyed by the string, if any.
pub proof fn lemma_ykey_index(es: Seq<(YamlView, YamlView)>, k: Seq<char>)
    ensures
        match ykey_index(es, k) {
            Some(i) => 0 <= i < es.len() && es[i].0 == YamlView::Str(k) && forall|j: int| 0 <= j < i ==> (#[trigger] es[j]).0 != YamlView::Str(k),
            None => forall|i: int| 0 <= i < es.len() ==> (#[trigger] es[i]).0 != YamlView::Str(k),
        },
{
    if exists|i: int| 0 <= i < es.len() && (#[trigger] es[i]).0 == YamlView::Str(k) {
        let w = choose|i: int| 0 <= i < es.len() && (#[trigger] es[i]).0 == YamlView::Str(k);
        lemma_first_ykey(es, k, w);
    }
}

proof fn lemma_first_ykey(es: Seq<(YamlView, YamlView)>, k: Seq<char>, w: int)
    requires
        0 <= w < es.len(),
        es[w].0 == YamlView::Str(k),
    ensures
        exists|i: int|
            0 <= i < es.len() && (#[trigger] es[i]).0 == YamlView::Str(k) && forall|j: int|
                0 <= j < i ==> (#[trigger] es[j]).0 != YamlView::Str(k),
    decreases w,
{
    if exists|j: int| 0 <= j < w && (#[trigger] es[j]).0 == YamlView::Str(k) {
        let j = choose|j: int| 0 <= j < w && (#[trigger] es[j]).0 == YamlView::Str(k);
        lemma_first_ykey(es, k, j);
    }
}

/// Entries with the same keys in the same places find a key at the same place.
pub proof fn lemma_ykey_index_same_keys(a: Seq<(YamlView, YamlView)>, b: Seq<(YamlView, YamlView)>, k: Seq<char>)
    requires
        a.len() == b.len(),
        forall|i: int| 0 <= i < a.len() ==> (#[trigger] a[i]).0 == b[i].0,
    ensures
        ykey_index(a, k) == ykey_index(b, k),
{
    lemma_ykey_index(a, k);
    lemma_ykey_index(b, k);
    match (ykey_index(a, k), ykey_index(b, k)) {
        (Some(i), Some(j)) => {
            if i < j {
                assert(b[i].0 == a[i].0);
            } else if j < i {
                assert(a[j].0 == b[j].0);
            }
        },
        (Some(i), None) => {
            assert(b[i].0 == a[i].0);
        },
        (None, Some(j)) => {
            assert(a[j].0 == b[j].0);
        },
        (None, None) => {},
    }
}

/// Looking a key up in the image of an object finds the image of its member.
pub proof fn lemma_image_get(es: Seq<(Seq<char>, JsonView)>, k: Seq<char>)
    ensures
        yget(yaml_image(JsonView::Object(es)), k) == match entries_get(es, k) {
            Some(v) => Some(yaml_image(v)),
            None => None,
        },
{
    let ys = yaml_image(JsonView::Object(es))->Entries_0;
    lemma_key_index(es, k);
    lemma_ykey_index(ys, k);
    match (key_index(es, k), ykey_index(ys, k)) {
        (Some(i), Some(j)) => {
            if i < j {
                assert(ys[i].0 == YamlView::Str(es[i].0));
            } else if j < i {
                assert(ys[j].0 == YamlView::Str(es[j].0));
            }
        },
        (Some(i), None) => {
            assert(ys[i].0 == YamlView::Str(es[i].0));
        },
        (None, Some(j)) => {
            assert(ys[j].0 == YamlView::Str(es[j].0));
        },
        (None, None) => {},
    }
}

// ---------------------------------------------------------------------------
// serde_yaml
// ---------------------------------------------------------------------------

#[verifier::external_type_specification]
#[verifier::external_body]
pub struct ExSerdeYamlValue(serde_yaml::Value);

#[verifier::external_type_specification]
#[verifier::external_body]
pub struct ExSerdeYamlNumber(serde_yaml::Number);

/// Converts a serde_yaml value into a `YamlValue`, variant for variant.
#[verifier::external_body]
fn from_serde_yaml(v: SerdeYaml) -> YamlValue {
    match v {
        SerdeYaml::Null => YamlValue::Null,
        SerdeYaml::Bool(b) => YamlValue::Bool(b),
        SerdeYaml::Number(n) => YamlValue::Number(number_from_serde(n)),
        SerdeYaml::String(s) => YamlValue::String(s),
        SerdeYaml::Sequence(a) => YamlValue::Sequence(a.into_iter().map(from_serde_yaml).collect()),
        SerdeYaml::Mapping(m) => YamlValue::Mapping(m.into_iter().map(|(k, x)| (from_serde_yaml(k), from_serde_yaml(x))).collect()),
        SerdeYaml::Tagged(t) => YamlValue::Tagged(t.tag.to_string(), Box::new(from_serde_yaml(t.value))),
    }
}

/// A serde_yaml number as a `YamlNumber` (`as_u64`, else `as_i64`, else its text).
#[verifier::external_body]
fn number_from_serde(n: serde_yaml::Number) -> YamlNumber {
    match (n.as_u64(), n.as_i64()) {
        (Some(u), _) => YamlNumber::PosInt(u),
        (None, Some(i)) => YamlNumber::NegInt(i),
        _ => YamlNumber::Float(n.to_string()),
    }
}

/// A `YamlNumber` as a serde_yaml value (text parsed back by `Number::from_str`).
#[verifier::external_body]
fn number_to_serde(n: &YamlNumber) -> SerdeYaml {
    match n {
        YamlNumber::PosInt(u) => SerdeYaml::from(*u),
        YamlNumber::NegInt(i) => SerdeYaml::from(*i),
        YamlNumber::Float(t) => t.parse::<serde_yaml::Number>().map_or(SerdeYaml::Null, SerdeYaml::Number),
    }
}

/// A tagged node as a serde_yaml value (`Tag::new` on the tag's text, which
/// panics on an empty text).
#[verifier::external_body]
fn tagged_to_serde(tag: &String, x: &YamlValue) -> SerdeYaml
    requires
        tag@.len() > 0,
        tags_nonempty(x@),
{
    let tag = serde_yaml::value::Tag::new(tag.clone());
    SerdeYaml::Tagged(Box::new(serde_yaml::value::TaggedValue { tag, value: to_serde_yaml(x) }))
}

/// Converts a `YamlValue` into a serde_yaml value, variant for variant.
#[verifier::external_body]
fn to_serde_yaml(v: &YamlValue) -> SerdeYaml
    requires
        tags_nonempty(v@),
{
    match v {
        YamlValue::Null => SerdeYaml::Null,
        YamlValue::Bool(b) => SerdeYaml::Bool(*b),
        YamlValue::Number(n) => number_to_serde(n),
        YamlValue::String(s) => SerdeYaml::String(s.clone()),
        YamlValue::Sequence(a) => SerdeYaml::Sequence(a.iter().map(to_serde_yaml).collect()),
        YamlValue::Mapping(es) => SerdeYaml::Mapping(es.iter().map(|(k, x)| (to_serde_yaml(k), to_serde_yaml(x))).collect()),
        YamlValue::Tagged(t, x) => tagged_to_serde(t, x),
    }
}

/// What `serde_yaml::from_str::<serde_yaml::Value>` yields for a text: the
/// value, or the error's message.
pub uninterp spec fn spec_yaml_parse(text: Seq<char>) -> Result<YamlView, Seq<char>>;

/// What `serde_yaml::to_value` makes of a JSON value (or the error's message).
pub uninterp spec fn spec_json_to_yaml(v: JsonView) -> Result<YamlView, Seq<char>>;

/// What `serde_json::to_value` makes of a YAML value (or the error's message).
pub uninterp spec fn spec_yaml_to_json(v: YamlView) -> Result<JsonView, Seq<char>>;

/// What converting a JSON value to YAML gives: the YAML image of a plain
/// value (as `json_to_yaml` states), else the named result.
pub open spec fn to_yaml_v(x: JsonView) -> Result<YamlView, Seq<char>> {
    if json_plain(x) {
        Ok(yaml_image(x))
    } else {
        spec_json_to_yaml(x)
    }
}

/// What converting a YAML value to JSON gives: the JSON image of a plain
/// value (as `yaml_to_json` states), else the named result.
pub open spec fn to_json_v(y: YamlView) -> Result<JsonView, Seq<char>> {
    if yaml_plain(y) {
        Ok(json_image(y))
    } else {
        spec_yaml_to_json(y)
    }
}

/// Every tag in the value has a non-empty text (YAML has no empty tag).
pub open spec fn tags_nonempty(v: YamlView) -> bool
    decreases v,
{
    match v {
        YamlView::Tagged(t, x) => t.len() > 0 && tags_nonempty(*x),
        YamlView::Items(xs) => forall|i: int| 0 <= i < xs.len() ==> tags_nonempty(#[trigger] xs[i]),
        YamlView::Entries(es) => forall|i: int|
            0 <= i < es.len() ==> tags_nonempty((#[trigger] es[i]).0) && tags_nonempty(es[i].1),
        _ => true,
    }
}

/// A plain value has no tags at all.
pub proof fn lemma_plain_tags(v: YamlView)
    requires
        yaml_plain(v),
    ensures
        tags_nonempty(v),
    decreases v,
{
    match v {
        YamlView::Items(xs) => {
            assert forall|i: int| 0 <= i < xs.len() implies tags_nonempty(#[trigger] xs[i]) by {
                lemma_plain_tags(xs[i]);
            }
        },
        YamlView::Entries(es) => {
            assert forall|i: int| 0 <= i < es.len() implies tags_nonempty((#[trigger] es[i]).0) && tags_nonempty(es[i].1) by {
                lemma_plain_tags(es[i].1);
            }
        },
        _ => {},
    }
}

proof fn lemma_items_tag(xs: Seq<YamlView>, i: int)
    requires
        0 <= i < xs.len(),
        !tags_nonempty(xs[i]),
    ensures
        !tags_nonempty(YamlView::Items(xs)),
{
    let v = YamlView::Items(xs);
    assert(decreases_to!(v => v->Items_0));
    assert(decreases_to!(xs => xs[i]));
}

proof fn lemma_entries_tag(es: Seq<(YamlView, YamlView)>, i: int)
    requires
        0 <= i < es.len(),
        !tags_nonempty(es[i].0) || !tags_nonempty(es[i].1),
    ensures
        !tags_nonempty(YamlView::Entries(es)),
{
    let v = YamlView::Entries(es);
    assert(decreases_to!(v => v->Entries_0));
    assert(decreases_to!(es => es[i]));
    assert(decreases_to!(es[i] => es[i].0));
    assert(decreases_to!(es[i] => es[i].1));
}

/// Whether every tag in `v` has a non-empty text.
pub fn has_nonempty_tags(v: &YamlValue) -> (r: bool)
    ensures
        r == tags_nonempty(v@),
    decreases v,
{
    match v {
        YamlValue::Tagged(t, x) => {
            proof {
                reveal_strlit("");
            }
            if str_eq(t.as_str(), "") {
                return false;
            }
            assert(t@.len() > 0) by {
                if t@.len() == 0 {
                    assert(t@ =~= ""@);
                }
            }
            proof {
                assert(decreases_to!(v => x));
            }
            has_nonempty_tags(x)
        },
        YamlValue::Sequence(items) => {
            proof {
                lemma_seq_view(*items);
            }
            let ghost xs = yitems_view(items@);
            let mut i: usize = 0;
            while i < items.len()
                invariant
                    i <= items@.len(),
                    xs == yitems_view(items@),
                    v@ == YamlView::Items(xs),
                    *v == YamlValue::Sequence(*items),
                    forall|j: int| 0 <= j < i ==> tags_nonempty(#[trigger] xs[j]),
                decreases items.len() - i,
            {
                proof {
                    assert(decreases_to!(v => items));
                    assert(decreases_to!(items => items@));
                    assert(decreases_to!(items@ => items@[i as int]));
                }
                assert(xs[i as int] == items@[i as int]@);
                if !has_nonempty_tags(&items[i]) {
                    proof {
                        lemma_items_tag(xs, i as int);
                    }
                    return false;
                }
                i = i + 1;
            }
            true
        },
        YamlValue::Mapping(es) => {
            proof {
                lemma_map_view(*es);
            }
            let ghost ys = ymap_view(es@);
            let mut i: usize = 0;
            while i < es.len()
                invariant
                    i <= es@.len(),
                    ys == ymap_view(es@),
                    v@ == YamlView::Entries(ys),
                    *v == YamlValue::Mapping(*es),
                    forall|j: int| 0 <= j < i ==> tags_nonempty((#[trigger] ys[j]).0) && tags_nonempty(ys[j].1),
                decreases es.len() - i,
            {
                proof {
                    assert(decreases_to!(v => es));
                    assert(decreases_to!(es => es@));
                    assert(decreases_to!(es@ => es@[i as int]));
                    assert(decreases_to!(es@[i as int] => es@[i as int].0));
                    assert(decreases_to!(es@[i as int] => es@[i as int].1));
                }
                assert(ys[i as int] == (es@[i as int].0@, es@[i as int].1@));
                if !has_nonempty_tags(&es[i].0) {
                    proof {
                        lemma_entries_tag(ys, i as int);
                    }
                    return false;
                }
                if !has_nonempty_tags(&es[i].1) {
                    proof {
                        lemma_entries_tag(ys, i as int);
                    }
                    return false;
                }
                i = i + 1;
            }
            true
        },
        _ => true,
    }
}

/// `serde_yaml::from_str`; the result is named by `spec_yaml_parse`.
#[verifier::external_body]
pub(crate) fn yaml_parse(text: &str) -> (r: Result<YamlValue, String>)
    ensures
        match r {
            Ok(v) => spec_yaml_parse(text@) == Ok::<YamlView, Seq<char>>(v@),
            Err(e) => spec_yaml_parse(text@) == Err::<YamlView, Seq<char>>(e@),
        },
{
    serde_yaml::from_str::<SerdeYaml>(text).map(from_serde_yaml).map_err(|e| e.to_string())
}

/// `serde_yaml::to_value` on a JSON value; named by `spec_json_to_yaml`.
#[verifier::external_body]
pub(crate) fn json_to_yaml(v: &JsonValue) -> (r: Result<YamlValue, String>)
    ensures
        match r {
            Ok(y) => spec_json_to_yaml(v@) == Ok::<YamlView, Seq<char>>(y@),
            Err(e) => spec_json_to_yaml(v@) == Err::<YamlView, Seq<char>>(e@),
        },
        json_plain(v@) ==> (r is Ok && r->Ok_0@ == yaml_image(v@)),
{
    serde_yaml::to_value(to_serde(v)).map(from_serde_yaml).map_err(|e| e.to_string())
}

/// `serde_json::to_value` on a YAML value; named by `spec_yaml_to_json`.
/// Every tag must have a text: serde_yaml's `Tag::new` panics on an empty one.
#[verifier::external_body]
pub(crate) fn yaml_to_json(v: &YamlValue) -> (r: Result<JsonValue, String>)
    requires
        tags_nonempty(v@),
    ensures
        match r {
            Ok(j) => spec_yaml_to_json(v@) == Ok::<JsonView, Seq<char>>(j@),
            Err(e) => spec_yaml_to_json(v@) == Err::<JsonView, Seq<char>>(e@),
        },
        yaml_plain(v@) ==> (r is Ok && r->Ok_0@ == json_image(v@)),
{
    serde_json::to_value(to_serde_yaml(v)).map(from_serde).map_err(|e| e.to_string())
}

} // verus!
