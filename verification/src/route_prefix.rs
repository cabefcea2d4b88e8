//! Session-level model routing (prefix triggered).
//!
//! A request model of the form `<prefix><key>` routes the request to the group
//! whose route key is `key`, `<prefix><key>:<model>` additionally passes the
//! explicit model through, and `<prefix>default` unbinds the session. The
//! default trigger prefix is `G.`.
use vstd::prelude::*;
use crate::webdav_auto_sync::duration_of_nanos;
use crate::text::{
    str_chars, to_owned_string, concat_str, trim_string, trim, is_ascii_graphic,
    is_ascii_alphanumeric, char_is_ascii_alphanumeric, str_to_lowercase, lowercase_v,
    starts_with, starts_with_exec, ascii_lower, char_ascii_lower, trim_bounds, chars_slice,
    str_eq, ascii_lower_seq, push_str, trim_end, trim_end_bound,
};

verus! {

/// Default trigger prefix (the whole trigger string, boundary character included).
pub const DEFAULT_ROUTE_PREFIX: &'static str = "G.";

/// Reserved route key: `<prefix>default` always means "unbind".
pub const RESERVED_ROUTE_KEY: &'static str = "default";

// ---------------------------------------------------------------------------
// Prefix validation
// ---------------------------------------------------------------------------

pub open spec fn all_ascii_graphic(p: Seq<char>) -> bool {
    forall|i: int| 0 <= i < p.len() ==> is_ascii_graphic(#[trigger] p[i])
}

pub open spec fn has_char(p: Seq<char>, c: char) -> bool {
    exists|i: int| 0 <= i < p.len() && #[trigger] p[i] == c
}

/// The first rule a candidate prefix breaks, as the message shown to the user;
/// `None` when the prefix is acceptable. Rules, in order: non-empty; at most 8
/// characters; printable ASCII without whitespace; no `:`; ends with a
/// non-alphanumeric character.
pub open spec fn route_prefix_problem(p: Seq<char>) -> Option<Seq<char>> {
    if p.len() == 0 {
        Some("路由前缀不能为空"@)
    } else if p.len() > 8 {
        Some("路由前缀长度须为 1–8 个字符: "@ + p)
    } else if !all_ascii_graphic(p) {
        Some("路由前缀只能使用可打印 ASCII 字符（不含空白）: "@ + p)
    } else if has_char(p, ':') {
        Some("路由前缀不能包含冒号「:」（它是 key 与模型名的分隔符）: "@ + p)
    } else if is_ascii_alphanumeric(p.last()) {
        Some("路由前缀必须以非字母数字字符结尾（如「.」「@」「#」）: "@ + p)
    } else {
        None
    }
}

pub open spec fn is_valid_route_prefix(p: Seq<char>) -> bool {
    route_prefix_problem(p) is None
}

/// Validates a route trigger prefix when settings are saved (fail-fast).
pub fn validate_route_prefix(prefix: &str) -> (r: Result<(), String>)
    ensures
        match route_prefix_problem(prefix@) {
            None => r is Ok,
            Some(msg) => r matches Err(e) && e@ == msg,
        },
{
    let v = str_chars(prefix);
    if v.len() == 0 {
        return Err(to_owned_string("路由前缀不能为空"));
    }
    if v.len() > 8 {
        return Err(concat_str("路由前缀长度须为 1–8 个字符: ", prefix));
    }
    let mut i: usize = 0;
    while i < v.len()
        invariant
            i <= v@.len(),
            0 < v@.len() <= 8,
            v@ == prefix@,
            forall|j: int| 0 <= j < i ==> is_ascii_graphic(#[trigger] v@[j]),
        decreases v.len() - i,
    {
        if !('!' <= v[i] && v[i] <= '~') {
            assert(!is_ascii_graphic(prefix@[i as int]));
            return Err(concat_str("路由前缀只能使用可打印 ASCII 字符（不含空白）: ", prefix));
        }
        i = i + 1;
    }
    let mut k: usize = 0;
    while k < v.len()
        invariant
            k <= v@.len(),
            v@ == prefix@,
            0 < v@.len() <= 8,
            all_ascii_graphic(prefix@),
            forall|j: int| 0 <= j < k ==> #[trigger] v@[j] != ':',
        decreases v.len() - k,
    {
        if v[k] == ':' {
            assert(prefix@[k as int] == ':');
            return Err(concat_str("路由前缀不能包含冒号「:」（它是 key 与模型名的分隔符）: ", prefix));
        }
        k = k + 1;
    }
    let last = v[v.len() - 1];
    if char_is_ascii_alphanumeric(last) {
        return Err(concat_str("路由前缀必须以非字母数字字符结尾（如「.」「@」「#」）: ", prefix));
    }
    Ok(())
}

/// What the runtime uses as the trigger prefix for a stored setting: the
/// trimmed value when it is non-empty and valid, otherwise the default `G.`.
pub open spec fn normalized_route_prefix(raw: Option<Seq<char>>) -> Seq<char> {
    match raw {
        Some(s) => if trim(s).len() > 0 && is_valid_route_prefix(trim(s)) {
            trim(s)
        } else {
            DEFAULT_ROUTE_PREFIX@
        },
        None => DEFAULT_ROUTE_PREFIX@,
    }
}

/// Whatever is stored, the prefix the runtime routes by passes validation
/// (an invalid or empty setting falls back to the default, which is valid).
pub proof fn law_normalized_prefix_is_valid(raw: Option<Seq<char>>)
    ensures
        is_valid_route_prefix(normalized_route_prefix(raw)),
{
    reveal_strlit("G.");
    let d = DEFAULT_ROUTE_PREFIX@;
    assert(d.len() == 2 && d[0] == 'G' && d[1] == '.');
    assert(all_ascii_graphic(d));
    assert(!has_char(d, ':'));
    assert(!is_ascii_alphanumeric(d.last()));
}

pub open spec fn opt_str_view(raw: Option<&str>) -> Option<Seq<char>> {
    match raw {
        Some(s) => Some(s@),
        None => None,
    }
}

/// Runtime normalisation (fail-safe): an invalid stored prefix falls back to
/// the default instead of blocking requests.
pub fn normalize_route_prefix(raw: Option<&str>) -> (r: String)
    ensures
        r@ == normalized_route_prefix(opt_str_view(raw)),
{
    match raw {
        Some(s) => {
            let t = trim_string(s);
            if !t.as_str().is_empty() && validate_route_prefix(t.as_str()).is_ok() {
                t
            } else {
                to_owned_string(DEFAULT_ROUTE_PREFIX)
            }
        },
        None => to_owned_string(DEFAULT_ROUTE_PREFIX),
    }
}

// ---------------------------------------------------------------------------
// Parsing a model value
// ---------------------------------------------------------------------------

/// Parsed route request. `key` keeps its original case (matching is case
/// insensitive); `model_override` is what follows the first `:`, kept verbatim.
#[derive(Debug, Clone, PartialEq, Eq)]
pub struct ParsedRoute {
    pub key: String,
    pub model_override: Option<String>,
}

pub open spec fn opt_string_view(o: Option<String>) -> Option<Seq<char>> {
    match o {
        Some(s) => Some(s@),
        None => None,
    }
}

impl View for ParsedRoute {
    type V = (Seq<char>, Option<Seq<char>>);

    open spec fn view(&self) -> (Seq<char>, Option<Seq<char>>) {
        (self.key@, opt_string_view(self.model_override))
    }
}

/// Number of bytes of the UTF-8 encoding of `c` (`char::len_utf8`).
pub open spec fn utf8_width(c: char) -> nat {
    if (c as u32) < 0x80 {
        1
    } else if (c as u32) < 0x800 {
        2
    } else if (c as u32) < 0x10000 {
        3
    } else {
        4
    }
}

/// Byte length of the UTF-8 encoding of `s` (`str::len`).
pub open spec fn utf8_len(s: Seq<char>) -> nat
    decreases s.len(),
{
    if s.len() == 0 {
        0
    } else {
        utf8_width(s[0]) + utf8_len(s.drop_first())
    }
}

/// The number of leading characters of `s` whose encoding is exactly `n`
/// bytes long; `None` when byte offset `n` is not a character boundary of `s`.
pub open spec fn char_index_at_byte(s: Seq<char>, n: nat) -> Option<nat>
    decreases s.len(),
{
    if n == 0 {
        Some(0)
    } else if s.len() == 0 {
        None
    } else if utf8_width(s[0]) > n {
        None
    } else {
        match char_index_at_byte(s.drop_first(), (n - utf8_width(s[0])) as nat) {
            Some(k) => Some(k + 1),
            None => None,
        }
    }
}

/// `s.get(n..).unwrap_or("")` for a byte offset `n`.
pub open spec fn byte_tail(s: Seq<char>, n: nat) -> Seq<char> {
    match char_index_at_byte(s, n) {
        Some(k) => s.skip(k as int),
        None => Seq::empty(),
    }
}

/// Removes one trailing `[1M]` marker (ASCII case-insensitive on the `M`).
pub open spec fn strip_one_m(s: Seq<char>) -> Seq<char> {
    if s.len() >= 4 && s[s.len() - 4] == '[' && s[s.len() - 3] == '1' && ascii_lower(
        s[s.len() - 2],
    ) == 'm' && s[s.len() - 1] == ']' {
        s.take(s.len() - 4)
    } else {
        s
    }
}

/// Index of the first `c` in `s`, if any.
pub open spec fn first_index_of(s: Seq<char>, c: char) -> Option<int> {
    if has_char(s, c) {
        Some(choose|i: int| 0 <= i < s.len() && s[i] == c && forall|j: int| 0 <= j < i ==> s[j] != c)
    } else {
        None
    }
}

/// Splits a route body at its first `:` into `(key, model override)`.
pub open spec fn split_route_body(rest: Seq<char>) -> (Seq<char>, Option<Seq<char>>) {
    match first_index_of(rest, ':') {
        Some(i) => {
            let mo = trim(rest.skip(i + 1));
            (trim(rest.take(i)), if mo.len() > 0 { Some(mo) } else { None })
        },
        None => (rest, None),
    }
}

/// What `parse_route_target` returns: `None` unless the lower-cased model
/// starts with the lower-cased prefix; otherwise the text after the prefix's
/// bytes, without a trailing `[1M]`, trimmed and split at the first `:`.
pub open spec fn spec_parse_route_target(model: Seq<char>, prefix: Seq<char>) -> Option<
    (Seq<char>, Option<Seq<char>>),
> {
    if !starts_with(lowercase_v(model), lowercase_v(prefix)) {
        None
    } else {
        Some(split_route_body(trim(strip_one_m(byte_tail(model, utf8_len(prefix))))))
    }
}

fn char_utf8_width(c: char) -> (r: u128)
    ensures
        r == utf8_width(c),
{
    if (c as u32) < 0x80 {
        1
    } else if (c as u32) < 0x800 {
        2
    } else if (c as u32) < 0x10000 {
        3
    } else {
        4
    }
}

pub(crate) fn utf8_len_exec(v: &Vec<char>) -> (r: u128)
    ensures
        r == utf8_len(v@),
{
    let mut acc: u128 = 0;
    let mut i: usize = v.len();
    while i > 0
        invariant
            i <= v@.len(),
            v@.len() == v.len(),
            acc == utf8_len(v@.skip(i as int)),
            acc <= 4 * (v@.len() - i),
        decreases i,
    {
        assert(v@.skip(i - 1).drop_first() =~= v@.skip(i as int));
        let w = char_utf8_width(v[i - 1]);
        acc = acc + w;
        i = i - 1;
    }
    assert(v@.skip(0) =~= v@);
    acc
}

/// Index of the first character of `s.get(n..)` inside `v`; `v.len()` when the
/// byte offset is not a character boundary (the tail is then empty).
fn tail_start(v: &Vec<char>, n: u128) -> (k: usize)
    ensures
        k <= v@.len(),
        v@.skip(k as int) == byte_tail(v@, n as nat),
{
    let mut acc: u128 = 0;
    let mut k: usize = 0;
    assert(v@.skip(0) =~= v@);
    while k < v.len() && acc < n
        invariant
            k <= v@.len(),
            acc <= n ==> char_index_at_byte(v@, n as nat) == match char_index_at_byte(
                v@.skip(k as int),
                (n - acc) as nat,
            ) {
                Some(j) => Some((j + k) as nat),
                None => None,
            },
            acc > n ==> char_index_at_byte(v@, n as nat) is None,
            acc <= 4 * k,
        decreases v.len() - k,
    {
        let ghost s = v@.skip(k as int);
        assert(s.drop_first() =~= v@.skip(k + 1));
        assert(s[0] == v@[k as int]);
        let w = char_utf8_width(v[k]);
        acc = acc + w;
        k = k + 1;
    }
    if acc == n {
        assert(char_index_at_byte(v@.skip(k as int), 0) == Some(0nat));
        k
    } else {
        proof {
            if acc < n {
                assert(k == v@.len());
                assert(v@.skip(k as int).len() == 0);
            }
        }
        assert(v@.skip(v@.len() as int) =~= Seq::<char>::empty());
        v.len()
    }
}

/// Bounds of `trim(strip_one_m(v[k..]))` inside `v`.
fn route_rest_bounds(mv: &Vec<char>, k: usize) -> (r: (usize, usize))
    requires
        k <= mv@.len(),
    ensures
        r.0 <= r.1 <= mv@.len(),
        mv@.subrange(r.0 as int, r.1 as int) == trim(strip_one_m(mv@.skip(k as int))),
{
    let len = mv.len();
    let ghost tail = mv@.skip(k as int);
    assert(tail =~= mv@.subrange(k as int, len as int));
    let mut hi = len;
    if len - k >= 4 && mv[len - 4] == '[' && mv[len - 3] == '1' && char_ascii_lower(mv[len - 2])
        == 'm' && mv[len - 1] == ']' {
        hi = len - 4;
        assert(strip_one_m(tail) =~= mv@.subrange(k as int, hi as int));
    } else {
        assert(strip_one_m(tail) =~= mv@.subrange(k as int, hi as int));
    }
    trim_bounds(mv, k, hi)
}

/// Splits `v[a..b]` at its first `:` (see `split_route_body`).
fn split_route_body_exec(mv: &Vec<char>, a: usize, b: usize) -> (p: ParsedRoute)
    requires
        a <= b <= mv@.len(),
    ensures
        p@ == split_route_body(mv@.subrange(a as int, b as int)),
{
    let ghost rest = mv@.subrange(a as int, b as int);
    let mut i = a;
    while i < b && mv[i] != ':'
        invariant
            a <= i <= b <= mv@.len(),
            forall|j: int| a <= j < i ==> mv@[j] != ':',
        decreases b - i,
    {
        i = i + 1;
    }
    if i < b {
        let ghost ci = i - a;
        assert(rest[ci as int] == ':');
        assert(has_char(rest, ':'));
        let ghost fi = first_index_of(rest, ':').unwrap();
        assert(fi == ci) by {
            if fi < ci {
                assert(rest[fi] == mv@[a + fi]);
            }
        }
        let (ka, kb) = trim_bounds(mv, a, i);
        assert(rest.take(ci as int) =~= mv@.subrange(a as int, i as int));
        let key = chars_slice(mv, ka, kb);
        let (ma, mb) = trim_bounds(mv, i + 1, b);
        assert(rest.skip(ci + 1) =~= mv@.subrange(i + 1, b as int));
        let model_override = if ma < mb {
            Some(chars_slice(mv, ma, mb))
        } else {
            None
        };
        ParsedRoute { key, model_override }
    } else {
        assert(!has_char(rest, ':')) by {
            if has_char(rest, ':') {
                let j = choose|j: int| 0 <= j < rest.len() && #[trigger] rest[j] == ':';
                assert(mv@[a + j] == ':');
            }
        }
        let key = chars_slice(mv, a, b);
        ParsedRoute { key, model_override: None }
    }
}

/// Parses whether a model value carries the route trigger prefix.
/// The prefix match is case-insensitive; `[1M]` suffixes are tolerated and
/// key and model are split at the first `:`.
pub fn parse_route_target(model: &str, prefix: &str) -> (r: Option<ParsedRoute>)
    ensures
        match r {
            Some(p) => spec_parse_route_target(model@, prefix@) == Some(p@),
            None => spec_parse_route_target(model@, prefix@) is None,
        },
{
    let lm = str_to_lowercase(model);
    let lp = str_to_lowercase(prefix);
    let lmv = str_chars(lm.as_str());
    let lpv = str_chars(lp.as_str());
    if !starts_with_exec(&lmv, &lpv) {
        return None;
    }
    let mv = str_chars(model);
    let pv = str_chars(prefix);
    let n = utf8_len_exec(&pv);
    let k = tail_start(&mv, n);
    let (a, b) = route_rest_bounds(&mv, k);
    Some(split_route_body_exec(&mv, a, b))
}

// ---------------------------------------------------------------------------
// Session binding store
// ---------------------------------------------------------------------------

#[verifier::external_type_specification]
#[verifier::external_body]
pub struct ExInstant(std::time::Instant);

/// std `Instant::now`. What it returns depends on the clock; nothing is stated.
#[verifier::external_body]
fn instant_now() -> std::time::Instant {
    std::time::Instant::now()
}

/// Nanoseconds elapsed since `origin` (std `Instant::elapsed`), saturated to
/// `u64`. What it returns depends on the clock; nothing is stated.
#[verifier::external_body]
fn elapsed_nanos(origin: &std::time::Instant) -> u64 {
    u64::try_from(origin.elapsed().as_nanos()).unwrap_or(u64::MAX)
}

/// std `Duration::as_nanos`, saturated to `u64`. `Duration` is opaque here:
/// the value is stated for a duration made by `Duration::from_nanos` (its
/// nanoseconds, which fit), and left unstated for others.
#[verifier::external_body]
fn duration_nanos(d: std::time::Duration) -> (r: u64)
    ensures
        forall|n: u64| #[trigger] duration_of_nanos(n) == d ==> r == n,
{
    u64::try_from(d.as_nanos()).unwrap_or(u64::MAX)
}

/// One session binding: the route key and when it was last used (nanoseconds
/// since the store was created).
pub struct RouteBindingEntry {
    session_id: String,
    route_key: String,
    last_used: u64,
}

spec fn entries_unique(s: Seq<RouteBindingEntry>) -> bool {
    forall|i: int, j: int|
        0 <= i < s.len() && 0 <= j < s.len() && i != j ==> #[trigger] s[i].session_id@
            != #[trigger] s[j].session_id@
}

spec fn entries_has(s: Seq<RouteBindingEntry>, k: Seq<char>) -> bool {
    exists|i: int| 0 <= i < s.len() && #[trigger] s[i].session_id@ == k
}

spec fn entries_index(s: Seq<RouteBindingEntry>, k: Seq<char>) -> int {
    choose|i: int| 0 <= i < s.len() && #[trigger] s[i].session_id@ == k
}

/// The bindings as a map: session id -> (route key, last use).
spec fn entries_map(s: Seq<RouteBindingEntry>) -> Map<Seq<char>, (Seq<char>, u64)> {
    Map::new(
        |k: Seq<char>| entries_has(s, k),
        |k: Seq<char>| (s[entries_index(s, k)].route_key@, s[entries_index(s, k)].last_used),
    )
}

proof fn lemma_entries_map_at(s: Seq<RouteBindingEntry>, i: int)
    requires
        entries_unique(s),
        0 <= i < s.len(),
    ensures
        entries_map(s).dom().contains(s[i].session_id@),
        entries_map(s)[s[i].session_id@] == (s[i].route_key@, s[i].last_used),
{
    let k = s[i].session_id@;
    assert(entries_has(s, k));
    let j = entries_index(s, k);
    assert(j == i);
}

proof fn lemma_entries_map_update(s: Seq<RouteBindingEntry>, i: int, e: RouteBindingEntry)
    requires
        entries_unique(s),
        0 <= i < s.len(),
        e.session_id@ == s[i].session_id@,
    ensures
        entries_unique(s.update(i, e)),
        entries_map(s.update(i, e)) == entries_map(s).insert(
            e.session_id@,
            (e.route_key@, e.last_used),
        ),
{
    let t = s.update(i, e);
    assert(entries_unique(t));
    let m = entries_map(s).insert(e.session_id@, (e.route_key@, e.last_used));
    assert forall|k: Seq<char>| #[trigger] entries_map(t).dom().contains(k) == m.dom().contains(k) by {
        if entries_has(s, k) {
            let j = entries_index(s, k);
            assert(t[j].session_id@ == k);
        }
        if entries_has(t, k) {
            let j = entries_index(t, k);
            assert(s[j].session_id@ == k);
        }
    }
    assert forall|k: Seq<char>| m.dom().contains(k) implies #[trigger] entries_map(t)[k] == m[k] by {
        assert(entries_map(t).dom().contains(k));
        let j = entries_index(t, k);
        if k == e.session_id@ {
            lemma_entries_map_at(t, i);
        } else {
            lemma_entries_map_at(t, j);
            lemma_entries_map_at(s, j);
        }
    }
    assert(entries_map(t) =~= m);
}

proof fn lemma_entries_map_push(s: Seq<RouteBindingEntry>, e: RouteBindingEntry)
    requires
        entries_unique(s),
        !entries_has(s, e.session_id@),
    ensures
        entries_unique(s.push(e)),
        entries_map(s.push(e)) == entries_map(s).insert(e.session_id@, (e.route_key@, e.last_used)),
{
    let t = s.push(e);
    assert forall|i: int, j: int|
        0 <= i < t.len() && 0 <= j < t.len() && i != j implies #[trigger] t[i].session_id@
        != #[trigger] t[j].session_id@ by {
        if i == s.len() {
            assert(s[j].session_id@ == t[j].session_id@);
        } else if j == s.len() {
            assert(s[i].session_id@ == t[i].session_id@);
        }
    }
    let m = entries_map(s).insert(e.session_id@, (e.route_key@, e.last_used));
    assert forall|k: Seq<char>| #[trigger] entries_map(t).dom().contains(k) == m.dom().contains(k) by {
        if entries_has(s, k) {
            let j = entries_index(s, k);
            assert(t[j].session_id@ == k);
        }
        if entries_has(t, k) && k != e.session_id@ {
            let j = entries_index(t, k);
            assert(s[j].session_id@ == k);
        }
        if k == e.session_id@ {
            assert(t[s.len() as int].session_id@ == k);
        }
    }
    assert forall|k: Seq<char>| m.dom().contains(k) implies #[trigger] entries_map(t)[k] == m[k] by {
        if k == e.session_id@ {
            lemma_entries_map_at(t, s.len() as int);
        } else {
            let j = entries_index(s, k);
            lemma_entries_map_at(t, j);
            lemma_entries_map_at(s, j);
        }
    }
    assert(entries_map(t) =~= m);
}

proof fn lemma_entries_map_remove(s: Seq<RouteBindingEntry>, i: int)
    requires
        entries_unique(s),
        0 <= i < s.len(),
    ensures
        entries_unique(s.remove(i)),
        entries_map(s.remove(i)) == entries_map(s).remove(s[i].session_id@),
{
    let t = s.remove(i);
    let key = s[i].session_id@;
    assert forall|a: int, b: int|
        0 <= a < t.len() && 0 <= b < t.len() && a != b implies #[trigger] t[a].session_id@
        != #[trigger] t[b].session_id@ by {
        let a2 = if a < i { a } else { a + 1 };
        let b2 = if b < i { b } else { b + 1 };
        assert(t[a] == s[a2]);
        assert(t[b] == s[b2]);
    }
    let m = entries_map(s).remove(key);
    assert forall|k: Seq<char>| #[trigger] entries_map(t).dom().contains(k) == m.dom().contains(k) by {
        if entries_has(t, k) {
            let j = entries_index(t, k);
            let j2 = if j < i { j } else { j + 1 };
            assert(t[j] == s[j2]);
            assert(s[j2].session_id@ == k);
        }
        if entries_has(s, k) && k != key {
            let j = entries_index(s, k);
            assert(j != i);
            let j2 = if j < i { j } else { j - 1 };
            assert(t[j2] == s[j]);
        }
    }
    assert forall|k: Seq<char>| m.dom().contains(k) implies #[trigger] entries_map(t)[k] == m[k] by {
        let j = entries_index(s, k);
        assert(j != i);
        let j2 = if j < i { j } else { j - 1 };
        assert(t[j2] == s[j]);
        lemma_entries_map_at(t, j2);
        lemma_entries_map_at(s, j);
    }
    assert(entries_map(t) =~= m);
}

/// In-process session -> route key binding table with LRU eviction and a
/// rolling time-to-live.
pub struct RouteBindingStore {
    entries: Vec<RouteBindingEntry>,
    capacity: usize,
    ttl_nanos: u64,
    origin: std::time::Instant,
}

impl View for RouteBindingStore {
    type V = Map<Seq<char>, (Seq<char>, u64)>;

    closed spec fn view(&self) -> Map<Seq<char>, (Seq<char>, u64)> {
        entries_map(self.entries@)
    }
}

/// Keys that were dropped from `before` to obtain `after` were used no more
/// recently than any binding that stayed.
pub open spec fn evicted_least_recent(
    before: Map<Seq<char>, (Seq<char>, u64)>,
    after: Map<Seq<char>, (Seq<char>, u64)>,
) -> bool {
    forall|gone: Seq<char>, kept: Seq<char>|
        #![trigger before[gone], after[kept]]
        before.dom().contains(gone) && !after.dom().contains(gone) && after.dom().contains(kept)
            ==> before[gone].1 <= after[kept].1
}

/// A lookup of session `s` at time `now` in the bindings `m` (TTL `ttl`):
/// the key and the renewed bindings while the binding is live; nothing
/// (and the binding dropped) once it has been idle for longer than `ttl`.
pub open spec fn lookup_outcome(
    m: Map<Seq<char>, (Seq<char>, u64)>,
    s: Seq<char>,
    now: u64,
    ttl: u64,
) -> (Option<Seq<char>>, Map<Seq<char>, (Seq<char>, u64)>) {
    if !m.dom().contains(s) {
        (None, m)
    } else if now - m[s].1 > ttl {
        (None, m.remove(s))
    } else {
        (Some(m[s].0), m.insert(s, (m[s].0, now)))
    }
}

/// Read after write: a session bound to `key` at `bound_at` (what `bind_at`
/// leaves behind) is routed to `key` by a lookup no later than the TTL after
/// it, and the lookup renews the binding.
pub proof fn law_lookup_after_bind(
    m: Map<Seq<char>, (Seq<char>, u64)>,
    s: Seq<char>,
    key: Seq<char>,
    bound_at: u64,
    now: u64,
    ttl: u64,
)
    requires
        m.dom().contains(s),
        m[s] == (key, bound_at),
        now - bound_at <= ttl,
    ensures
        lookup_outcome(m, s, now, ttl) == (Some(key), m.insert(s, (key, now))),
{
}

/// A binding idle for longer than the TTL is gone: the lookup finds
/// nothing and a second lookup finds nothing either.
pub proof fn law_binding_expires(
    m: Map<Seq<char>, (Seq<char>, u64)>,
    s: Seq<char>,
    now: u64,
    later: u64,
    ttl: u64,
)
    requires
        m.dom().contains(s),
        now - m[s].1 > ttl,
    ensures
        lookup_outcome(m, s, now, ttl) == (None::<Seq<char>>, m.remove(s)),
        lookup_outcome(m.remove(s), s, later, ttl).0 is None,
{
}

/// After `unbind` a session is routed nowhere, whatever the time.
pub proof fn law_lookup_after_unbind(m: Map<Seq<char>, (Seq<char>, u64)>, s: Seq<char>, now: u64, ttl: u64)
    ensures
        lookup_outcome(m.remove(s), s, now, ttl) == (None::<Seq<char>>, m.remove(s)),
{
}

/// Lookups of one session leave every other session's binding as it was.
pub proof fn law_lookup_isolated(
    m: Map<Seq<char>, (Seq<char>, u64)>,
    s: Seq<char>,
    other: Seq<char>,
    now: u64,
    ttl: u64,
)
    requires
        other != s,
    ensures
        lookup_outcome(m, s, now, ttl).1.dom().contains(other) == m.dom().contains(other),
        m.dom().contains(other) ==> lookup_outcome(m, s, now, ttl).1[other] == m[other],
{
}

impl RouteBindingStore {
    pub closed spec fn wf(&self) -> bool {
        entries_unique(self.entries@)
    }

    /// Number of bindings held.
    pub closed spec fn count(&self) -> nat {
        self.entries@.len()
    }

    pub closed spec fn capacity_spec(&self) -> nat {
        self.capacity as nat
    }

    pub closed spec fn ttl_spec(&self) -> u64 {
        self.ttl_nanos
    }

    pub proof fn lemma_count_is_size(&self)
        requires
            self.wf(),
        ensures
            self@.dom().finite(),
            self@.dom().len() == self.count(),
    {
        lemma_count_matches(self.entries@);
    }

    /// An empty store. The TTL is stated for a duration made by
    /// `Duration::from_nanos`; for others it is left unstated.
    pub fn new(capacity: usize, ttl: std::time::Duration) -> (r: Self)
        ensures
            r.wf(),
            r@ == Map::<Seq<char>, (Seq<char>, u64)>::empty(),
            r.count() == 0,
            r.capacity_spec() == capacity,
            forall|n: u64| #[trigger] duration_of_nanos(n) == ttl ==> r.ttl_spec() == n,
    {
        let r = RouteBindingStore {
            entries: Vec::new(),
            capacity,
            ttl_nanos: duration_nanos(ttl),
            origin: instant_now(),
        };
        assert(r@ =~= Map::<Seq<char>, (Seq<char>, u64)>::empty());
        r
    }

    fn find(&self, session_id: &str) -> (r: Option<usize>)
        requires
            self.wf(),
        ensures
            match r {
                Some(i) => i < self.entries@.len() && self.entries@[i as int].session_id@
                    == session_id@,
                None => !self@.dom().contains(session_id@),
            },
    {
        let mut i: usize = 0;
        while i < self.entries.len()
            invariant
                i <= self.entries@.len(),
                forall|j: int| 0 <= j < i ==> self.entries@[j].session_id@ != session_id@,
            decreases self.entries.len() - i,
        {
            if str_eq(self.entries[i].session_id.as_str(), session_id) {
                return Some(i);
            }
            i = i + 1;
        }
        None
    }

    /// Evicts least recently used bindings until at most `capacity` remain.
    fn evict_if_over_capacity(&mut self)
        requires
            old(self).wf(),
        ensures
            final(self).wf(),
            final(self).capacity == old(self).capacity,
            final(self).ttl_nanos == old(self).ttl_nanos,
            final(self)@.submap_of(old(self)@),
            final(self).count() == if old(self).count() > old(self).capacity {
                old(self).capacity as nat
            } else {
                old(self).count()
            },
            evicted_least_recent(old(self)@, final(self)@),
    {
        let ghost before = self@;
        while self.entries.len() > self.capacity
            invariant
                self.wf(),
                self.capacity == old(self).capacity,
                self.ttl_nanos == old(self).ttl_nanos,
                before == old(self)@,
                self@.submap_of(before),
                old(self).count() > old(self).capacity ==> self.count() >= self.capacity,
                self.count() <= old(self).count(),
                old(self).count() <= old(self).capacity ==> self.count() == old(self).count(),
                evicted_least_recent(before, self@),
            decreases self.entries.len(),
        {
            let mut best: usize = 0;
            let mut j: usize = 1;
            while j < self.entries.len()
                invariant
                    1 <= j <= self.entries@.len(),
                    best < self.entries@.len(),
                    forall|m: int| 0 <= m < j ==> self.entries@[best as int].last_used
                        <= #[trigger] self.entries@[m].last_used,
                decreases self.entries.len() - j,
            {
                if self.entries[j].last_used < self.entries[best].last_used {
                    best = j;
                }
                j = j + 1;
            }
            let ghost cur = self@;
            let ghost s = self.entries@;
            let ghost gone = s[best as int].session_id@;
            proof {
                lemma_entries_map_remove(s, best as int);
                lemma_entries_map_at(s, best as int);
            }
            self.entries.remove(best);
            proof {
                assert(self@ == cur.remove(gone));
                assert forall|g: Seq<char>, kept: Seq<char>|
                    #![trigger before[g], self@[kept]]
                    before.dom().contains(g) && !self@.dom().contains(g) && self@.dom().contains(
                        kept,
                    ) implies before[g].1 <= self@[kept].1 by {
                    let ki = entries_index(s, kept);
                    lemma_entries_map_at(s, ki);
                    assert(cur[kept] == before[kept]);
                    if g == gone {
                        assert(before[g] == cur[g]);
                    } else {
                        assert(!cur.dom().contains(g));
                    }
                }
            }
        }
    }

    /// Binds `session_id` to `route_key` at time `now` (a newer key replaces
    /// the old binding), then evicts least recently used bindings over capacity.
    pub fn bind_at(&mut self, session_id: &str, route_key: &str, now: u64)
        requires
            old(self).wf(),
        ensures
            final(self).wf(),
            final(self).capacity_spec() == old(self).capacity_spec(),
            final(self).ttl_spec() == old(self).ttl_spec(),
            final(self)@.submap_of(old(self)@.insert(session_id@, (route_key@, now))),
            evicted_least_recent(old(self)@.insert(session_id@, (route_key@, now)), final(self)@),
            ({
                let grown = if old(self)@.dom().contains(session_id@) {
                    old(self).count()
                } else {
                    old(self).count() + 1
                };
                final(self).count() == if grown > old(self).capacity_spec() {
                    old(self).capacity_spec()
                } else {
                    grown
                }
            }),
            old(self).capacity_spec() >= 1 && (forall|x: Seq<char>|
                #[trigger] old(self)@.dom().contains(x) ==> old(self)@[x].1 < now)
                ==> final(self)@.dom().contains(session_id@) && final(self)@[session_id@] == (
                route_key@,
                now,
            ),
    {
        let entry = RouteBindingEntry {
            session_id: to_owned_string(session_id),
            route_key: to_owned_string(route_key),
            last_used: now,
        };
        let ghost s = self.entries@;
        match self.find(session_id) {
            Some(i) => {
                proof {
                    lemma_entries_map_update(s, i as int, entry);
                }
                self.entries.set(i, entry);
            },
            None => {
                proof {
                    assert(!entries_has(s, session_id@));
                    lemma_entries_map_push(s, entry);
                }
                self.entries.push(entry);
            },
        }
        let ghost grown = self@;
        self.evict_if_over_capacity();
        proof {
            if self.capacity >= 1 && (forall|x: Seq<char>|
                #[trigger] old(self)@.dom().contains(x) ==> old(self)@[x].1 < now) {
                lemma_count_matches(self.entries@);
                if !self@.dom().contains(session_id@) {
                    assert(self.entries@.len() >= 1);
                    let e0 = self.entries@[0];
                    lemma_entries_map_at(self.entries@, 0);
                    let kept = e0.session_id@;
                    assert(self@.dom().contains(kept));
                    assert(kept != session_id@);
                    assert(grown.dom().contains(kept));
                    assert(old(self)@.dom().contains(kept));
                    assert(old(self)@[kept].1 < now);
                    assert(grown[kept] == old(self)@[kept]);
                    assert(self@[kept] == grown[kept]);
                    assert(grown[session_id@].1 <= self@[kept].1);
                    assert(false);
                }
                assert(self@.dom().contains(session_id@));
                assert(grown.dom().contains(session_id@));
                assert(self@[session_id@] == grown[session_id@]);
            }
        }
    }

    /// Binds using the store's clock.
    pub fn bind(&mut self, session_id: &str, route_key: &str)
        requires
            old(self).wf(),
        ensures
            final(self).wf(),
            final(self).capacity_spec() == old(self).capacity_spec(),
            final(self).ttl_spec() == old(self).ttl_spec(),
            exists|now: u64|
                final(self)@.submap_of(old(self)@.insert(session_id@, (route_key@, now)))
                    && evicted_least_recent(
                    old(self)@.insert(session_id@, (route_key@, now)),
                    final(self)@,
                ),
            ({
                let grown = if old(self)@.dom().contains(session_id@) {
                    old(self).count()
                } else {
                    old(self).count() + 1
                };
                final(self).count() == if grown > old(self).capacity_spec() {
                    old(self).capacity_spec()
                } else {
                    grown
                }
            }),
    {
        let now = elapsed_nanos(&self.origin);
        self.bind_at(session_id, route_key, now);
    }

    /// The store's clock: nanoseconds since the store was created. The value
    /// is a reading of the machine's clock, so nothing is stated of it.
    pub fn now(&self) -> u64 {
        elapsed_nanos(&self.origin)
    }

    /// Looks a session up at time `now`: a binding older than the TTL is
    /// removed and reported absent; a live one is renewed and its key returned.
    pub fn lookup_at(&mut self, session_id: &str, now: u64) -> (r: Option<String>)
        requires
            old(self).wf(),
        ensures
            final(self).wf(),
            final(self).capacity_spec() == old(self).capacity_spec(),
            final(self).ttl_spec() == old(self).ttl_spec(),
            (opt_string_view(r), final(self)@) == lookup_outcome(old(self)@, session_id@, now, old(self).ttl_spec()),
    {
        let ghost s = self.entries@;
        match self.find(session_id) {
            None => None,
            Some(i) => {
                proof {
                    lemma_entries_map_at(s, i as int);
                }
                let last = self.entries[i].last_used;
                let elapsed = if now >= last { now - last } else { 0 };
                if elapsed > self.ttl_nanos {
                    proof {
                        lemma_entries_map_remove(s, i as int);
                    }
                    self.entries.remove(i);
                    None
                } else {
                    let key = self.entries[i].route_key.clone();
                    let entry = RouteBindingEntry {
                        session_id: to_owned_string(session_id),
                        route_key: key.clone(),
                        last_used: now,
                    };
                    proof {
                        lemma_entries_map_update(s, i as int, entry);
                    }
                    self.entries.set(i, entry);
                    Some(key)
                }
            },
        }
    }

    /// Looks a session up using the store's clock (renewing a live binding).
    pub fn lookup(&mut self, session_id: &str) -> (r: Option<String>)
        requires
            old(self).wf(),
        ensures
            final(self).wf(),
            final(self).capacity_spec() == old(self).capacity_spec(),
            final(self).ttl_spec() == old(self).ttl_spec(),
            !old(self)@.dom().contains(session_id@) ==> r is None && final(self)@ == old(self)@,
            old(self)@.dom().contains(session_id@) ==> match r {
                None => final(self)@ == old(self)@.remove(session_id@),
                Some(k) => k@ == old(self)@[session_id@].0 && exists|now: u64|
                    final(self)@ == old(self)@.insert(
                        session_id@,
                        (old(self)@[session_id@].0, now),
                    ),
            },
    {
        let now = elapsed_nanos(&self.origin);
        self.lookup_at(session_id, now)
    }

    /// Removes the binding of `session_id` (idempotent).
    pub fn unbind(&mut self, session_id: &str)
        requires
            old(self).wf(),
        ensures
            final(self).wf(),
            final(self).capacity_spec() == old(self).capacity_spec(),
            final(self).ttl_spec() == old(self).ttl_spec(),
            final(self)@ == old(self)@.remove(session_id@),
    {
        let ghost s = self.entries@;
        match self.find(session_id) {
            None => {
                assert(self@ =~= old(self)@.remove(session_id@));
            },
            Some(i) => {
                proof {
                    lemma_entries_map_remove(s, i as int);
                }
                self.entries.remove(i);
            },
        }
    }
}

proof fn lemma_count_matches(s: Seq<RouteBindingEntry>)
    requires
        entries_unique(s),
    ensures
        entries_map(s).dom().finite(),
        entries_map(s).dom().len() == s.len(),
    decreases s.len(),
{
    if s.len() == 0 {
        assert(entries_map(s).dom() =~= Set::<Seq<char>>::empty());
    } else {
        let i = s.len() - 1;
        lemma_entries_map_remove(s, i);
        lemma_count_matches(s.remove(i));
        lemma_entries_map_at(s, i);
        assert(entries_map(s).remove(s[i].session_id@).dom() =~= entries_map(s).dom().remove(
            s[i].session_id@,
        ));
    }
}


impl Default for RouteBindingStore {
    /// Capacity 1000 sessions, one hour time-to-live.
    fn default() -> (r: Self)
        ensures
            r.wf(),
            r@ == Map::<Seq<char>, (Seq<char>, u64)>::empty(),
            r.count() == 0,
            r.capacity_spec() == 1000,
            r.ttl_spec() == 3_600_000_000_000u64,
    {
        let r = RouteBindingStore {
            entries: Vec::new(),
            capacity: 1000,
            ttl_nanos: 3_600_000_000_000u64,
            origin: instant_now(),
        };
        assert(r@ =~= Map::<Seq<char>, (Seq<char>, u64)>::empty());
        r
    }
}

// ---------------------------------------------------------------------------
// Resolving a route key to a provider group
// ---------------------------------------------------------------------------

/// Errors the routing layer reports to the proxy.
#[derive(Debug)]
pub enum ProxyError {
    /// Route configuration problem (unknown key, missing default model).
    ConfigError(String),
    /// The provider store could not be read.
    DatabaseError(String),
}

impl ProxyError {
    /// The human readable message carried by the error.
    pub fn message(&self) -> (r: String)
        ensures
            match self {
                ProxyError::ConfigError(m) => r@ == m@,
                ProxyError::DatabaseError(m) => r@ == m@,
            },
    {
        match self {
            ProxyError::ConfigError(m) => m.clone(),
            ProxyError::DatabaseError(m) => m.clone(),
        }
    }
}

/// The model slots of a provider group (`env` of its settings): sonnet, opus,
/// fable, haiku, subagent and the group default (`ANTHROPIC_MODEL`).
#[derive(Debug, Clone)]
pub struct ModelMapping {
    pub sonnet_model: Option<String>,
    pub opus_model: Option<String>,
    pub fable_model: Option<String>,
    pub haiku_model: Option<String>,
    pub subagent_model: Option<String>,
    pub default_model: Option<String>,
}

/// What the routing logic reads of a provider group.
#[derive(Debug, Clone)]
pub struct RouteProvider {
    pub id: String,
    pub name: String,
    pub sort_index: Option<usize>,
    pub route_enabled: Option<bool>,
    pub route_key: Option<String>,
    pub mapping: ModelMapping,
}

fn copy_opt_string(o: &Option<String>) -> (r: Option<String>)
    ensures
        r == *o,
{
    match o {
        Some(s) => Some(s.clone()),
        None => None,
    }
}

impl ModelMapping {
    pub fn copy(&self) -> (r: Self)
        ensures
            r == *self,
    {
        ModelMapping {
            sonnet_model: copy_opt_string(&self.sonnet_model),
            opus_model: copy_opt_string(&self.opus_model),
            fable_model: copy_opt_string(&self.fable_model),
            haiku_model: copy_opt_string(&self.haiku_model),
            subagent_model: copy_opt_string(&self.subagent_model),
            default_model: copy_opt_string(&self.default_model),
        }
    }
}

impl RouteProvider {
    pub fn copy(&self) -> (r: Self)
        ensures
            r == *self,
    {
        RouteProvider {
            id: self.id.clone(),
            name: self.name.clone(),
            sort_index: self.sort_index,
            route_enabled: self.route_enabled,
            route_key: copy_opt_string(&self.route_key),
            mapping: self.mapping.copy(),
        }
    }
}

#[verifier::external_type_specification]
#[verifier::external_body]
#[verifier::reject_recursive_types(K)]
#[verifier::reject_recursive_types(V)]
#[verifier::reject_recursive_types(S)]
pub struct ExIndexMap<K, V, S>(indexmap::IndexMap<K, V, S>);

/// The provider groups an `IndexMap` holds, in its iteration (insertion) order.
pub uninterp spec fn provider_map_values(m: indexmap::IndexMap<String, RouteProvider>) -> Seq<RouteProvider>;

/// `IndexMap::values` collected in order (each value cloned).
#[verifier::external_body]
fn provider_values(all: &indexmap::IndexMap<String, RouteProvider>) -> (r: Vec<RouteProvider>)
    ensures
        r@ == provider_map_values(*all),
{
    all.values().cloned().collect()
}

pub open spec fn ascii_eq_ignore_case(a: Seq<char>, b: Seq<char>) -> bool {
    ascii_lower_seq(a) == ascii_lower_seq(b)
}

/// The group answers to `key`: routing is enabled and its trimmed route key
/// equals the trimmed `key`, ASCII case-insensitively.
pub open spec fn route_key_matches(p: RouteProvider, key: Seq<char>) -> bool {
    p.route_enabled == Some(true) && match p.route_key {
        Some(k) => ascii_eq_ignore_case(trim(k@), trim(key)),
        None => false,
    }
}

/// Groups answering to `key`, in order.
pub open spec fn route_candidates(ps: Seq<RouteProvider>, key: Seq<char>) -> Seq<RouteProvider>
    decreases ps.len(),
{
    if ps.len() == 0 {
        Seq::empty()
    } else {
        let c = route_candidates(ps.drop_last(), key);
        if route_key_matches(ps.last(), key) {
            c.push(ps.last())
        } else {
            c
        }
    }
}

/// Route keys of all groups with routing enabled (as stored, untrimmed).
pub open spec fn available_route_keys(ps: Seq<RouteProvider>) -> Seq<Seq<char>>
    decreases ps.len(),
{
    if ps.len() == 0 {
        Seq::empty()
    } else {
        let c = available_route_keys(ps.drop_last());
        if ps.last().route_enabled == Some(true) && ps.last().route_key is Some {
            c.push(ps.last().route_key.unwrap()@)
        } else {
            c
        }
    }
}

/// `parts` joined with `sep` between consecutive items.
pub open spec fn join_with(parts: Seq<Seq<char>>, sep: Seq<char>) -> Seq<char>
    decreases parts.len(),
{
    if parts.len() == 0 {
        Seq::empty()
    } else if parts.len() == 1 {
        parts[0]
    } else {
        join_with(parts.drop_last(), sep) + sep + parts.last()
    }
}

pub open spec fn sort_key(p: RouteProvider) -> nat {
    match p.sort_index {
        Some(i) => i as nat,
        None => usize::MAX as nat,
    }
}

/// Index of the first group with the smallest sort key (a stable sort's head).
pub open spec fn is_first_minimal(c: Seq<RouteProvider>, i: int) -> bool {
    0 <= i < c.len() && (forall|j: int| 0 <= j < c.len() ==> sort_key(c[i]) <= #[trigger] sort_key(c[j]))
        && (forall|j: int| 0 <= j < i ==> sort_key(c[i]) < #[trigger] sort_key(c[j]))
}

/// The message of a route key that matches no group.
pub open spec fn unmatched_route_key_message(ps: Seq<RouteProvider>, key: Seq<char>) -> Seq<char> {
    let avail = available_route_keys(ps);
    "路由 key「"@ + key + "」未匹配到已加入路由的分组（当前可用: "@ + (if avail.len() == 0 {
        "无"@
    } else {
        join_with(avail, ", "@)
    }) + "）"@
}

fn route_candidates_exec(ps: &Vec<RouteProvider>, key: &str) -> (r: Vec<RouteProvider>)
    ensures
        r@ == route_candidates(ps@, key@),
{
    let kv = str_chars(key);
    let (ka, kb) = trim_bounds(&kv, 0, kv.len());
    assert(kv@.subrange(0, kv@.len() as int) =~= kv@);
    let key_low = ascii_lower_chars(&kv, ka, kb);
    let mut out: Vec<RouteProvider> = Vec::new();
    let mut i: usize = 0;
    while i < ps.len()
        invariant
            i <= ps@.len(),
            key_low@ == ascii_lower_seq(trim(key@)),
            out@ == route_candidates(ps@.take(i as int), key@),
        decreases ps.len() - i,
    {
        assert(ps@.take(i + 1).drop_last() =~= ps@.take(i as int));
        let p = &ps[i];
        let mut hit = false;
        if p.route_enabled == Some(true) {
            match &p.route_key {
                Some(k) => {
                    let pv = str_chars(k.as_str());
                    let (pa, pb) = trim_bounds(&pv, 0, pv.len());
                    assert(pv@.subrange(0, pv@.len() as int) =~= pv@);
                    let low = ascii_lower_chars(&pv, pa, pb);
                    hit = chars_eq(&low, &key_low);
                },
                None => {},
            }
        }
        assert(hit == route_key_matches(ps@[i as int], key@));
        if hit {
            out.push(p.copy());
        }
        i = i + 1;
    }
    assert(ps@.take(ps@.len() as int) =~= ps@);
    out
}

/// `ascii_lower_seq(v[a..b])` as a vector.
fn ascii_lower_chars(v: &Vec<char>, a: usize, b: usize) -> (r: Vec<char>)
    requires
        a <= b <= v@.len(),
    ensures
        r@ == ascii_lower_seq(v@.subrange(a as int, b as int)),
{
    let mut out: Vec<char> = Vec::new();
    let mut i = a;
    while i < b
        invariant
            a <= i <= b <= v@.len(),
            out@ == ascii_lower_seq(v@.subrange(a as int, i as int)),
        decreases b - i,
    {
        out.push(char_ascii_lower(v[i]));
        assert(ascii_lower_seq(v@.subrange(a as int, i + 1)) =~= ascii_lower_seq(
            v@.subrange(a as int, i as int),
        ).push(ascii_lower(v@[i as int])));
        i = i + 1;
    }
    out
}

fn chars_eq(a: &Vec<char>, b: &Vec<char>) -> (r: bool)
    ensures
        r == (a@ == b@),
{
    if a.len() != b.len() {
        return false;
    }
    let mut i: usize = 0;
    while i < a.len()
        invariant
            i <= a@.len() == b@.len(),
            forall|j: int| 0 <= j < i ==> a@[j] == b@[j],
        decreases a.len() - i,
    {
        if a[i] != b[i] {
            return false;
        }
        i = i + 1;
    }
    assert(a@ =~= b@);
    true
}

fn unmatched_message_exec(ps: &Vec<RouteProvider>, key: &str) -> (r: String)
    ensures
        r@ == unmatched_route_key_message(ps@, key@),
{
    let mut joined = String::new();
    let mut count: usize = 0;
    let mut i: usize = 0;
    while i < ps.len()
        invariant
            i <= ps@.len(),
            count == available_route_keys(ps@.take(i as int)).len(),
            count <= i,
            joined@ == join_with(available_route_keys(ps@.take(i as int)), ", "@),
        decreases ps.len() - i,
    {
        assert(ps@.take(i + 1).drop_last() =~= ps@.take(i as int));
        let p = &ps[i];
        if p.route_enabled == Some(true) {
            match &p.route_key {
                Some(k) => {
                    let ghost c_old = available_route_keys(ps@.take(i as int));
                    let ghost c_new = available_route_keys(ps@.take(i + 1));
                    assert(c_new == c_old.push(k@));
                    assert(c_new.drop_last() =~= c_old);
                    if count > 0 {
                        push_str(&mut joined, ", ");
                    }
                    push_str(&mut joined, k.as_str());
                    count = count + 1;
                    proof {
                        if c_new.len() == 1 {
                            assert(joined@ =~= k@);
                        } else {
                            assert(join_with(c_new, ", "@) == join_with(c_old, ", "@) + ", "@ + k@);
                        }
                    }
                },
                None => {},
            }
        }
        i = i + 1;
    }
    assert(ps@.take(ps@.len() as int) =~= ps@);
    let mut msg = to_owned_string("路由 key「");
    push_str(&mut msg, key);
    push_str(&mut msg, "」未匹配到已加入路由的分组（当前可用: ");
    if count == 0 {
        push_str(&mut msg, "无");
    } else {
        push_str(&mut msg, joined.as_str());
    }
    push_str(&mut msg, "）");
    msg
}

/// Resolves a route key among the groups of an app: only groups with routing
/// enabled and a matching key (ASCII case-insensitive) count; when several
/// match, the smallest `sort_index` wins (first one on ties); no match is an
/// error listing the keys that are available.
pub fn resolve_route_in(ps: &Vec<RouteProvider>, key: &str) -> (r: Result<RouteProvider, ProxyError>)
    ensures
        ({
            let c = route_candidates(ps@, key@);
            if c.len() == 0 {
                r matches Err(ProxyError::ConfigError(m)) && m@ == unmatched_route_key_message(
                    ps@,
                    key@,
                )
            } else {
                r matches Ok(p) && exists|i: int| is_first_minimal(c, i) && p == c[i]
            }
        }),
{
    let c = route_candidates_exec(ps, key);
    if c.len() == 0 {
        return Err(ProxyError::ConfigError(unmatched_message_exec(ps, key)));
    }
    let mut best: usize = 0;
    let mut j: usize = 1;
    while j < c.len()
        invariant
            1 <= j <= c@.len(),
            best < j,
            forall|m: int| 0 <= m < j ==> sort_key(c@[best as int]) <= #[trigger] sort_key(c@[m]),
            forall|m: int| 0 <= m < best ==> sort_key(c@[best as int]) < #[trigger] sort_key(c@[m]),
        decreases c.len() - j,
    {
        let kb: usize = match c[best].sort_index {
            Some(x) => x,
            None => usize::MAX,
        };
        let kj: usize = match c[j].sort_index {
            Some(x) => x,
            None => usize::MAX,
        };
        if kj < kb {
            best = j;
        }
        j = j + 1;
    }
    assert(is_first_minimal(c@, best as int));
    Ok(c[best].copy())
}

/// Resolves a route key among the groups of an app (see `resolve_route_in`);
/// the groups are taken in the map's order.
pub fn resolve_route_provider(
    all: &indexmap::IndexMap<String, RouteProvider>,
    key: &str,
) -> (r: Result<RouteProvider, ProxyError>)
    ensures
        ({
            let ps = provider_map_values(*all);
            let c = route_candidates(ps, key@);
            if c.len() == 0 {
                r matches Err(ProxyError::ConfigError(m)) && m@ == unmatched_route_key_message(
                    ps,
                    key@,
                )
            } else {
                r matches Ok(p) && exists|i: int| is_first_minimal(c, i) && p == c[i]
            }
        }),
{
    let ps = provider_values(all);
    resolve_route_in(&ps, key)
}


// ---------------------------------------------------------------------------
// /v1/models route entries
// ---------------------------------------------------------------------------

/// Which route entries `/v1/models` exposes.
#[derive(Debug, Clone, Copy, PartialEq, Eq, Structural)]
pub enum RouteModelsMode {
    /// One entry per group: `<prefix><key>`.
    Groups,
    /// One entry per distinct model of a group: `<prefix><key>:<model>`.
    Models,
    /// Group entries first, then model entries.
    Both,
}

/// Placeholder creation time of route entries (no real data is invented).
pub const MODELS_LIST_EPOCH_ISO: &'static str = "1970-01-01T00:00:00Z";

/// One `/v1/models` entry (`{"type": "model", id, display_name, created_at}`).
#[derive(Debug, Clone)]
pub struct RouteModelEntry {
    pub kind: String,
    pub id: String,
    pub display_name: String,
    pub created_at: String,
}

/// `(base model, carried [1M])` of a stored model value: the trailing `[1M]`
/// (case-insensitive `M`) is detected after trimming the end, and the base is trimmed.
pub open spec fn split_one_m(raw: Seq<char>) -> (Seq<char>, bool) {
    let t = trim_end(raw);
    let st = strip_one_m(t);
    (trim(st), st.len() != t.len())
}

/// Splits off and detects a `[1M]` suffix: `(base model, had [1M])`.
pub fn split_base_and_one_m(raw: &str) -> (r: (String, bool))
    ensures
        (r.0@, r.1) == split_one_m(raw@),
{
    let v = str_chars(raw);
    let e = trim_end_bound(&v, 0, v.len());
    assert(v@.subrange(0, v@.len() as int) =~= v@);
    let ghost t = v@.subrange(0, e as int);
    let mut hi = e;
    if e >= 4 && v[e - 4] == '[' && v[e - 3] == '1' && char_ascii_lower(v[e - 2]) == 'm' && v[e
        - 1] == ']' {
        hi = e - 4;
    }
    assert(strip_one_m(t) =~= v@.subrange(0, hi as int));
    let (a, b) = trim_bounds(&v, 0, hi);
    (chars_slice(&v, a, b), hi != e)
}

pub open spec fn key_seen(e: Seq<(Seq<char>, ModelMapping)>, lk: Seq<char>) -> bool {
    exists|i: int| 0 <= i < e.len() && lowercase_v(#[trigger] e[i].0) == lk
}

/// Groups listed by `/v1/models`, in order: routing enabled, trimmed key
/// non-empty, and the first group for each lower-cased key.
pub open spec fn eligible_groups(ps: Seq<RouteProvider>) -> Seq<(Seq<char>, ModelMapping)>
    decreases ps.len(),
{
    if ps.len() == 0 {
        Seq::empty()
    } else {
        let e = eligible_groups(ps.drop_last());
        let p = ps.last();
        if p.route_enabled == Some(true) && p.route_key is Some && trim(p.route_key.unwrap()@).len()
            > 0 && !key_seen(e, lowercase_v(trim(p.route_key.unwrap()@))) {
            e.push((trim(p.route_key.unwrap()@), p.mapping))
        } else {
            e
        }
    }
}

pub open spec fn opt_push(s: Seq<Seq<char>>, o: Option<String>) -> Seq<Seq<char>> {
    match o {
        Some(x) => s.push(x@),
        None => s,
    }
}

/// The configured model values of a group, in slot order.
pub open spec fn tier_values(m: ModelMapping) -> Seq<Seq<char>> {
    opt_push(
        opt_push(
            opt_push(
                opt_push(opt_push(opt_push(Seq::empty(), m.sonnet_model), m.opus_model), m.fable_model),
                m.haiku_model,
            ),
            m.subagent_model,
        ),
        m.default_model,
    )
}

pub open spec fn first_base_index(d: Seq<(Seq<char>, bool)>, b: Seq<char>) -> Option<int> {
    if exists|i: int| 0 <= i < d.len() && #[trigger] d[i].0 == b {
        Some(choose|i: int| 0 <= i < d.len() && d[i].0 == b && forall|j: int| 0 <= j < i ==> #[trigger] d[j].0 != b)
    } else {
        None
    }
}

/// Distinct non-empty base models in first-seen order; the `[1M]` flag of a
/// base is set when any of its values carried it.
pub open spec fn dedupe_models(raws: Seq<Seq<char>>) -> Seq<(Seq<char>, bool)>
    decreases raws.len(),
{
    if raws.len() == 0 {
        Seq::empty()
    } else {
        let d = dedupe_models(raws.drop_last());
        let (b, f) = split_one_m(raws.last());
        if b.len() == 0 {
            d
        } else {
            match first_base_index(d, b) {
                Some(i) => d.update(i, (b, d[i].1 || f)),
                None => d.push((b, f)),
            }
        }
    }
}

pub open spec fn one_m_suffix(f: bool) -> Seq<char> {
    if f {
        "[1M]"@
    } else {
        Seq::empty()
    }
}

/// Name (id without prefix) of a group entry.
pub open spec fn group_entry_name(g: (Seq<char>, ModelMapping)) -> Seq<char> {
    g.0 + one_m_suffix(
        match g.1.default_model {
            Some(m) => split_one_m(m@).1,
            None => false,
        },
    )
}

/// Names of the model entries of a group.
pub open spec fn model_entry_names(key: Seq<char>, d: Seq<(Seq<char>, bool)>) -> Seq<Seq<char>>
    decreases d.len(),
{
    if d.len() == 0 {
        Seq::empty()
    } else {
        model_entry_names(key, d.drop_last()).push(key + ":"@ + d.last().0 + one_m_suffix(d.last().1))
    }
}

pub open spec fn group_entry_names(e: Seq<(Seq<char>, ModelMapping)>) -> Seq<Seq<char>>
    decreases e.len(),
{
    if e.len() == 0 {
        Seq::empty()
    } else {
        group_entry_names(e.drop_last()).push(group_entry_name(e.last()))
    }
}

pub open spec fn all_model_entry_names(e: Seq<(Seq<char>, ModelMapping)>) -> Seq<Seq<char>>
    decreases e.len(),
{
    if e.len() == 0 {
        Seq::empty()
    } else {
        all_model_entry_names(e.drop_last()) + model_entry_names(
            e.last().0,
            dedupe_models(tier_values(e.last().1)),
        )
    }
}

/// Names (ids without the trigger prefix) listed by `/v1/models`: a leading
/// `Default` fallback entry when any group is eligible, then group entries
/// (Groups/Both), then model entries (Models/Both).
pub open spec fn route_model_names(ps: Seq<RouteProvider>, mode: RouteModelsMode) -> Seq<Seq<char>> {
    let e = eligible_groups(ps);
    (if e.len() > 0 {
        seq!["Default"@]
    } else {
        Seq::empty()
    }) + (if mode != RouteModelsMode::Models {
        group_entry_names(e)
    } else {
        Seq::empty()
    }) + (if mode != RouteModelsMode::Groups {
        all_model_entry_names(e)
    } else {
        Seq::empty()
    })
}

pub open spec fn entries_match_names(
    r: Seq<RouteModelEntry>,
    prefix: Seq<char>,
    names: Seq<Seq<char>>,
) -> bool {
    r.len() == names.len() && forall|i: int|
        0 <= i < r.len() ==> {
            &&& (#[trigger] r[i]).id@ == prefix + names[i]
            &&& r[i].display_name@ == names[i]
            &&& r[i].kind@ == "model"@
            &&& r[i].created_at@ == MODELS_LIST_EPOCH_ISO@
        }
}

pub open spec fn string_views(v: Seq<String>) -> Seq<Seq<char>> {
    v.map_values(|s: String| s@)
}

fn eligible_groups_exec(ps: &Vec<RouteProvider>) -> (r: Vec<(String, ModelMapping)>)
    ensures
        r@.map_values(|g: (String, ModelMapping)| (g.0@, g.1)) == eligible_groups(ps@),
{
    let mut out: Vec<(String, ModelMapping)> = Vec::new();
    let mut seen: Vec<String> = Vec::new();
    let mut i: usize = 0;
    while i < ps.len()
        invariant
            i <= ps@.len(),
            out@.map_values(|g: (String, ModelMapping)| (g.0@, g.1)) == eligible_groups(
                ps@.take(i as int),
            ),
            seen@.len() == out@.len(),
            forall|j: int| 0 <= j < seen@.len() ==> (#[trigger] seen@[j])@ == lowercase_v(out@[j].0@),
        decreases ps.len() - i,
    {
        assert(ps@.take(i + 1).drop_last() =~= ps@.take(i as int));
        let ghost e = eligible_groups(ps@.take(i as int));
        let p = &ps[i];
        if p.route_enabled == Some(true) {
            match &p.route_key {
                Some(k) => {
                    let t = trim_string(k.as_str());
                    if !t.as_str().is_empty() {
                        let low = str_to_lowercase(t.as_str());
                        let mut dup = false;
                        let mut j: usize = 0;
                        while j < seen.len()
                            invariant
                                j <= seen@.len(),
                                dup == exists|m: int| 0 <= m < j && (#[trigger] seen@[m])@ == low@,
                            decreases seen.len() - j,
                        {
                            if str_eq(seen[j].as_str(), low.as_str()) {
                                dup = true;
                            }
                            j = j + 1;
                        }
                        assert(dup == key_seen(e, lowercase_v(t@))) by {
                            if dup {
                                let m = choose|m: int| 0 <= m < seen@.len() && (#[trigger] seen@[m])@ == low@;
                                assert(out@.map_values(|g: (String, ModelMapping)| (g.0@, g.1))[m] == (out@[m].0@, out@[m].1));
                                assert(e[m].0 == out@[m].0@);
                            }
                            if key_seen(e, lowercase_v(t@)) {
                                let m = choose|m: int| 0 <= m < e.len() && lowercase_v(#[trigger] e[m].0) == lowercase_v(t@);
                                assert(out@.map_values(|g: (String, ModelMapping)| (g.0@, g.1))[m] == (out@[m].0@, out@[m].1));
                                assert(seen@[m]@ == low@);
                            }
                        }
                        if !dup {
                            let ghost before = out@;
                            out.push((t, p.mapping.copy()));
                            seen.push(low);
                            assert(out@.map_values(|g: (String, ModelMapping)| (g.0@, g.1)) =~= before.map_values(|g: (String, ModelMapping)| (g.0@, g.1)).push((out@.last().0@, out@.last().1)));
                        }
                    }
                },
                None => {},
            }
        }
        i = i + 1;
    }
    assert(ps@.take(ps@.len() as int) =~= ps@);
    out
}


fn push_opt(v: &mut Vec<String>, o: &Option<String>)
    ensures
        string_views(final(v)@) == opt_push(string_views(old(v)@), *o),
{
    match o {
        Some(x) => {
            let ghost before = v@;
            v.push(x.clone());
            assert(string_views(v@) =~= string_views(before).push(x@));
        },
        None => {},
    }
}

fn tier_values_exec(m: &ModelMapping) -> (r: Vec<String>)
    ensures
        string_views(r@) == tier_values(*m),
{
    let mut v: Vec<String> = Vec::new();
    assert(string_views(v@) =~= Seq::<Seq<char>>::empty());
    push_opt(&mut v, &m.sonnet_model);
    push_opt(&mut v, &m.opus_model);
    push_opt(&mut v, &m.fable_model);
    push_opt(&mut v, &m.haiku_model);
    push_opt(&mut v, &m.subagent_model);
    push_opt(&mut v, &m.default_model);
    v
}

pub open spec fn pair_views(bases: Seq<String>, flags: Seq<bool>) -> Seq<(Seq<char>, bool)> {
    Seq::new(bases.len(), |i: int| (bases[i]@, flags[i]))
}

fn dedupe_models_exec(raws: &Vec<String>) -> (r: (Vec<String>, Vec<bool>))
    ensures
        r.0@.len() == r.1@.len(),
        pair_views(r.0@, r.1@) == dedupe_models(string_views(raws@)),
{
    let mut bases: Vec<String> = Vec::new();
    let mut flags: Vec<bool> = Vec::new();
    let mut i: usize = 0;
    while i < raws.len()
        invariant
            i <= raws@.len(),
            bases@.len() == flags@.len(),
            pair_views(bases@, flags@) == dedupe_models(string_views(raws@).take(i as int)),
        decreases raws.len() - i,
    {
        assert(string_views(raws@).take(i + 1).drop_last() =~= string_views(raws@).take(i as int));
        assert(string_views(raws@).take(i + 1).last() == raws@[i as int]@);
        let ghost d = pair_views(bases@, flags@);
        let (b, f) = split_base_and_one_m(raws[i].as_str());
        if !b.as_str().is_empty() {
            let mut j: usize = 0;
            while j < bases.len() && !str_eq(bases[j].as_str(), b.as_str())
                invariant
                    j <= bases@.len(),
                    bases@.len() == flags@.len(),
                    d == pair_views(bases@, flags@),
                    forall|m: int| 0 <= m < j ==> (#[trigger] bases@[m])@ != b@,
                decreases bases.len() - j,
            {
                j = j + 1;
            }
            if j < bases.len() {
                assert(d[j as int].0 == b@);
                let ghost fi = first_base_index(d, b@).unwrap();
                assert(fi == j) by {
                    if fi < j {
                        assert(d[fi].0 == bases@[fi]@);
                    }
                    if fi > j {
                        assert(d[j as int].0 == b@);
                    }
                }
                let nf = flags[j] || f;
                flags.set(j, nf);
                assert(pair_views(bases@, flags@) =~= d.update(j as int, (b@, d[j as int].1 || f)));
            } else {
                assert(first_base_index(d, b@) is None) by {
                    if exists|m: int| 0 <= m < d.len() && #[trigger] d[m].0 == b@ {
                        let m = choose|m: int| 0 <= m < d.len() && #[trigger] d[m].0 == b@;
                        assert(bases@[m]@ == b@);
                    }
                }
                bases.push(b);
                flags.push(f);
                assert(pair_views(bases@, flags@) =~= d.push((bases@.last()@, f)));
            }
        }
        i = i + 1;
    }
    assert(string_views(raws@).take(raws@.len() as int) =~= string_views(raws@));
    (bases, flags)
}

fn make_entry(prefix: &str, name: String) -> (r: RouteModelEntry)
    ensures
        r.id@ == prefix@ + name@,
        r.display_name@ == name@,
        r.kind@ == "model"@,
        r.created_at@ == MODELS_LIST_EPOCH_ISO@,
{
    RouteModelEntry {
        kind: to_owned_string("model"),
        id: concat_str(prefix, name.as_str()),
        display_name: name,
        created_at: to_owned_string(MODELS_LIST_EPOCH_ISO),
    }
}

fn push_entry(out: &mut Vec<RouteModelEntry>, prefix: &str, name: String, Ghost(names): Ghost<Seq<Seq<char>>>)
    requires
        entries_match_names(old(out)@, prefix@, names),
    ensures
        entries_match_names(final(out)@, prefix@, names.push(name@)),
{
    let ghost nm = name@;
    let e = make_entry(prefix, name);
    out.push(e);
    assert forall|i: int| 0 <= i < out@.len() implies {
        &&& (#[trigger] out@[i]).id@ == prefix@ + names.push(nm)[i]
        &&& out@[i].display_name@ == names.push(nm)[i]
        &&& out@[i].kind@ == "model"@
        &&& out@[i].created_at@ == MODELS_LIST_EPOCH_ISO@
    } by {
        if i < names.len() {
            assert(out@[i] == old(out)@[i]);
        }
    }
}

/// Builds the `/v1/models` entries of route groups (see `route_model_names`):
/// ids are `<prefix><name>`, display names drop the prefix.
pub fn build_route_models_list_in(ps: &Vec<RouteProvider>, prefix: &str, mode: RouteModelsMode) -> (r: Vec<RouteModelEntry>)
    ensures
        entries_match_names(r@, prefix@, route_model_names(ps@, mode)),
{
    let eligible = eligible_groups_exec(ps);
    let ghost e = eligible_groups(ps@);
    assert(eligible@.len() == e.len());
    let mut out: Vec<RouteModelEntry> = Vec::new();
    let ghost mut names: Seq<Seq<char>> = Seq::empty();
    if eligible.len() > 0 {
        push_entry(&mut out, prefix, to_owned_string("Default"), Ghost(names));
        proof {
            names = names.push("Default"@);
        }
    }
    assert(names =~= if e.len() > 0 { seq!["Default"@] } else { Seq::<Seq<char>>::empty() });
    let ghost head = names;
    if mode != RouteModelsMode::Models {
        let mut i: usize = 0;
        while i < eligible.len()
            invariant
                i <= eligible@.len() == e.len(),
                e == eligible_groups(ps@),
                eligible@.map_values(|g: (String, ModelMapping)| (g.0@, g.1)) == e,
                entries_match_names(out@, prefix@, names),
                names == head + group_entry_names(e.take(i as int)),
            decreases eligible.len() - i,
        {
            assert(e.take(i + 1).drop_last() =~= e.take(i as int));
            assert(e[i as int] == (eligible@[i as int].0@, eligible@[i as int].1));
            let g = &eligible[i];
            let one_m = match &g.1.default_model {
                Some(m) => split_base_and_one_m(m.as_str()).1,
                None => false,
            };
            let mut name = g.0.clone();
            if one_m {
                push_str(&mut name, "[1M]");
            }
            assert(name@ == group_entry_name(e[i as int]));
            push_entry(&mut out, prefix, name, Ghost(names));
            proof {
                names = names.push(group_entry_name(e[i as int]));
                assert(head + group_entry_names(e.take(i + 1)) =~= names);
            }
            i = i + 1;
        }
        assert(e.take(e.len() as int) =~= e);
    }
    assert(names == head + (if mode != RouteModelsMode::Models { group_entry_names(e) } else { Seq::<Seq<char>>::empty() })) by {
        if mode == RouteModelsMode::Models {
            assert(names =~= head + Seq::<Seq<char>>::empty());
        }
    }
    let ghost mid = names;
    if mode != RouteModelsMode::Groups {
        let mut i: usize = 0;
        while i < eligible.len()
            invariant
                i <= eligible@.len() == e.len(),
                e == eligible_groups(ps@),
                eligible@.map_values(|g: (String, ModelMapping)| (g.0@, g.1)) == e,
                entries_match_names(out@, prefix@, names),
                names == mid + all_model_entry_names(e.take(i as int)),
            decreases eligible.len() - i,
        {
            assert(e.take(i + 1).drop_last() =~= e.take(i as int));
            assert(e[i as int] == (eligible@[i as int].0@, eligible@[i as int].1));
            let g = &eligible[i];
            let tiers = tier_values_exec(&g.1);
            let (bases, flags) = dedupe_models_exec(&tiers);
            let ghost d = pair_views(bases@, flags@);
            let ghost start = names;
            let mut j: usize = 0;
            while j < bases.len()
                invariant
                    j <= bases@.len() == flags@.len(),
                    d == pair_views(bases@, flags@),
                    entries_match_names(out@, prefix@, names),
                    names == start + model_entry_names(g.0@, d.take(j as int)),
                decreases bases.len() - j,
            {
                assert(d.take(j + 1).drop_last() =~= d.take(j as int));
                let mut name = g.0.clone();
                push_str(&mut name, ":");
                push_str(&mut name, bases[j].as_str());
                if flags[j] {
                    push_str(&mut name, "[1M]");
                }
                let ghost nm = name@;
                assert(nm == g.0@ + ":"@ + d[j as int].0 + one_m_suffix(d[j as int].1));
                push_entry(&mut out, prefix, name, Ghost(names));
                proof {
                    names = names.push(nm);
                    assert(start + model_entry_names(g.0@, d.take(j + 1)) =~= names);
                }
                j = j + 1;
            }
            assert(d.take(d.len() as int) =~= d);
            proof {
                assert(all_model_entry_names(e.take(i + 1)) == all_model_entry_names(e.take(i as int)) + model_entry_names(e[i as int].0, dedupe_models(tier_values(e[i as int].1))));
                assert(mid + all_model_entry_names(e.take(i + 1)) =~= names);
            }
            i = i + 1;
        }
        assert(e.take(e.len() as int) =~= e);
    }
    assert(names =~= route_model_names(ps@, mode)) by {
        if mode == RouteModelsMode::Groups {
            assert(names =~= mid + Seq::<Seq<char>>::empty());
        }
    }
    out
}

/// Builds the `/v1/models` route entries from an app's groups, taken in the map's order.
pub fn build_route_models_list(
    all: &indexmap::IndexMap<String, RouteProvider>,
    prefix: &str,
    mode: RouteModelsMode,
) -> (r: Vec<RouteModelEntry>)
    ensures
        entries_match_names(r@, prefix@, route_model_names(provider_map_values(*all), mode)),
{
    let ps = provider_values(all);
    build_route_models_list_in(&ps, prefix, mode)
}

// ---------------------------------------------------------------------------
// What the models list covers
// ---------------------------------------------------------------------------

/// `x` is the value of one of the six slots of `m` (sonnet, opus, fable,
/// haiku, subagent, default).
pub open spec fn is_slot_value(m: ModelMapping, x: String) -> bool {
    ||| m.sonnet_model == Some(x)
    ||| m.opus_model == Some(x)
    ||| m.fable_model == Some(x)
    ||| m.haiku_model == Some(x)
    ||| m.subagent_model == Some(x)
    ||| m.default_model == Some(x)
}

/// The values of the slots that are set, in the order given.
pub open spec fn set_values(slots: Seq<Option<String>>) -> Seq<Seq<char>>
    decreases slots.len(),
{
    if slots.len() == 0 {
        Seq::empty()
    } else {
        let prev = set_values(slots.drop_last());
        match slots.last() {
            Some(x) => prev.push(x@),
            None => prev,
        }
    }
}

/// The values a group's model entries are made from are the set slots in
/// the order sonnet, opus, fable, haiku, subagent, default.
pub proof fn law_tier_values_in_slot_order(m: ModelMapping)
    ensures
        tier_values(m) == set_values(
            seq![m.sonnet_model, m.opus_model, m.fable_model, m.haiku_model, m.subagent_model, m.default_model],
        ),
{
    let s = seq![m.sonnet_model, m.opus_model, m.fable_model, m.haiku_model, m.subagent_model, m.default_model];
    assert(s.take(0) =~= Seq::<Option<String>>::empty());
    lemma_set_values_step(s, 0);
    lemma_set_values_step(s, 1);
    lemma_set_values_step(s, 2);
    lemma_set_values_step(s, 3);
    lemma_set_values_step(s, 4);
    lemma_set_values_step(s, 5);
    assert(s.take(6) =~= s);
}

proof fn lemma_set_values_step(s: Seq<Option<String>>, k: int)
    requires
        0 <= k < s.len(),
    ensures
        set_values(s.take(k + 1)) == opt_push(set_values(s.take(k)), s[k]),
{
    assert(s.take(k + 1).drop_last() =~= s.take(k));
    assert(s.take(k + 1).last() == s[k]);
}

proof fn lemma_set_values_contains(slots: Seq<Option<String>>, j: int, x: String)
    requires
        0 <= j < slots.len(),
        slots[j] == Some(x),
    ensures
        set_values(slots).contains(x@),
    decreases slots.len(),
{
    let prev = set_values(slots.drop_last());
    if j == slots.len() - 1 {
        assert(set_values(slots)[prev.len() as int] == x@);
    } else {
        assert(slots.drop_last()[j] == slots[j]);
        lemma_set_values_contains(slots.drop_last(), j, x);
        let k = choose|k: int| 0 <= k < prev.len() && prev[k] == x@;
        match slots.last() {
            Some(y) => assert(set_values(slots)[k] == prev[k]),
            None => {},
        }
    }
}

proof fn lemma_first_base_exists(d: Seq<(Seq<char>, bool)>, b: Seq<char>, w: int)
    requires
        0 <= w < d.len(),
        d[w].0 == b,
    ensures
        exists|i: int| 0 <= i < d.len() && d[i].0 == b && forall|j: int| 0 <= j < i ==> #[trigger] d[j].0 != b,
    decreases w,
{
    if exists|j: int| 0 <= j < w && #[trigger] d[j].0 == b {
        let j = choose|j: int| 0 <= j < w && #[trigger] d[j].0 == b;
        lemma_first_base_exists(d, b, j);
    }
}

proof fn lemma_first_base_index(d: Seq<(Seq<char>, bool)>, b: Seq<char>)
    ensures
        first_base_index(d, b) matches Some(i) ==> 0 <= i < d.len() && d[i].0 == b,
{
    if exists|i: int| 0 <= i < d.len() && #[trigger] d[i].0 == b {
        let w = choose|i: int| 0 <= i < d.len() && #[trigger] d[i].0 == b;
        lemma_first_base_exists(d, b, w);
    }
}

/// Every value with a non-empty base gets its base among the distinct models.
proof fn lemma_dedupe_covers(raws: Seq<Seq<char>>, r: Seq<char>)
    requires
        raws.contains(r),
        split_one_m(r).0.len() > 0,
    ensures
        exists|i: int| 0 <= i < dedupe_models(raws).len() && (#[trigger] dedupe_models(raws)[i]).0 == split_one_m(r).0,
    decreases raws.len(),
{
    let init = raws.drop_last();
    let d = dedupe_models(init);
    let (b, f) = split_one_m(raws.last());
    lemma_first_base_index(d, b);
    let j = choose|j: int| 0 <= j < raws.len() && raws[j] == r;
    let dd = dedupe_models(raws);
    if j == raws.len() - 1 {
        assert(raws.last() == r);
        assert(b == split_one_m(r).0);
        match first_base_index(d, b) {
            Some(i) => {
                assert(dd == d.update(i, (b, d[i].1 || f)));
                assert(dd[i].0 == b);
            },
            None => {
                assert(dd == d.push((b, f)));
                assert(dd[d.len() as int].0 == b);
            },
        }
    } else {
        assert(init[j] == r);
        lemma_dedupe_covers(init, r);
        let i = choose|i: int| 0 <= i < d.len() && (#[trigger] d[i]).0 == split_one_m(r).0;
        if b.len() > 0 {
            match first_base_index(d, b) {
                Some(k) => {
                    assert(dd == d.update(k, (b, d[k].1 || f)));
                    assert(dd[i].0 == d[i].0);
                },
                None => {
                    assert(dd == d.push((b, f)));
                    assert(dd[i] == d[i]);
                },
            }
        } else {
            assert(dd == d);
            assert(dd[i] == d[i]);
        }
    }
}

proof fn lemma_model_entry_names(key: Seq<char>, d: Seq<(Seq<char>, bool)>, i: int)
    requires
        0 <= i < d.len(),
    ensures
        model_entry_names(key, d).len() == d.len(),
        model_entry_names(key, d)[i] == key + ":"@ + d[i].0 + one_m_suffix(d[i].1),
    decreases d.len(),
{
    if i < d.len() - 1 {
        lemma_model_entry_names(key, d.drop_last(), i);
    } else if d.len() > 1 {
        lemma_model_entry_names(key, d.drop_last(), 0);
    }
    if d.len() == 1 {
        assert(model_entry_names(key, d.drop_last()).len() == 0);
    }
}

proof fn lemma_all_model_entry_names(e: Seq<(Seq<char>, ModelMapping)>, g: int, i: int)
    requires
        0 <= g < e.len(),
        0 <= i < model_entry_names(e[g].0, dedupe_models(tier_values(e[g].1))).len(),
    ensures
        exists|j: int| 0 <= j < all_model_entry_names(e).len() && #[trigger] all_model_entry_names(e)[j]
            == model_entry_names(e[g].0, dedupe_models(tier_values(e[g].1)))[i],
    decreases e.len(),
{
    let init = e.drop_last();
    let prev = all_model_entry_names(init);
    if g == e.len() - 1 {
        assert(all_model_entry_names(e)[prev.len() + i] == model_entry_names(e[g].0, dedupe_models(tier_values(e[g].1)))[i]);
    } else {
        assert(init[g] == e[g]);
        lemma_all_model_entry_names(init, g, i);
        let j = choose|j: int| 0 <= j < prev.len() && #[trigger] prev[j] == model_entry_names(init[g].0, dedupe_models(tier_values(init[g].1)))[i];
        assert(all_model_entry_names(e)[j] == prev[j]);
    }
}

/// The models list covers every configured model: for each group listed by
/// `/v1/models` (outside `Groups` mode), every slot (sonnet, opus, fable,
/// haiku, subagent, default) whose value has a non-empty base model gives
/// an entry `<key>:<base>`, with `[1M]` when the model is marked so.
#[verifier::spinoff_prover]
#[verifier::rlimit(40)]
pub proof fn law_models_list_covers_slots(ps: Seq<RouteProvider>, mode: RouteModelsMode, g: int, x: String)
    requires
        mode != RouteModelsMode::Groups,
        0 <= g < eligible_groups(ps).len(),
        is_slot_value(eligible_groups(ps)[g].1, x),
        split_one_m(x@).0.len() > 0,
    ensures
        route_model_names(ps, mode).contains(eligible_groups(ps)[g].0 + ":"@ + split_one_m(x@).0)
            || route_model_names(ps, mode).contains(eligible_groups(ps)[g].0 + ":"@ + split_one_m(x@).0 + "[1M]"@),
{
    let e = eligible_groups(ps);
    let m = e[g].1;
    let key = e[g].0;
    let slots = seq![m.sonnet_model, m.opus_model, m.fable_model, m.haiku_model, m.subagent_model, m.default_model];
    law_tier_values_in_slot_order(m);
    let sj: int = if m.sonnet_model == Some(x) {
        0
    } else if m.opus_model == Some(x) {
        1
    } else if m.fable_model == Some(x) {
        2
    } else if m.haiku_model == Some(x) {
        3
    } else if m.subagent_model == Some(x) {
        4
    } else {
        5
    };
    assert(slots[sj] == Some(x));
    lemma_set_values_contains(slots, sj, x);
    let raws = tier_values(m);
    lemma_dedupe_covers(raws, x@);
    let d = dedupe_models(raws);
    let i = choose|i: int| 0 <= i < d.len() && (#[trigger] d[i]).0 == split_one_m(x@).0;
    lemma_model_entry_names(key, d, i);
    lemma_all_model_entry_names(e, g, i);
    let all = all_model_entry_names(e);
    let j = choose|j: int| 0 <= j < all.len() && #[trigger] all[j] == model_entry_names(key, d)[i];
    let head = (if e.len() > 0 { seq!["Default"@] } else { Seq::<Seq<char>>::empty() }) + (if mode
        != RouteModelsMode::Models {
        group_entry_names(e)
    } else {
        Seq::empty()
    });
    assert(route_model_names(ps, mode) == head + all);
    assert(route_model_names(ps, mode)[head.len() + j] == all[j]);
    assert(route_model_names(ps, mode)[head.len() + j] == key + ":"@ + split_one_m(x@).0 + one_m_suffix(d[i].1));
    if !d[i].1 {
        assert(key + ":"@ + split_one_m(x@).0 + one_m_suffix(d[i].1) =~= key + ":"@ + split_one_m(x@).0);
    }
}

proof fn lemma_dedupe_sound(raws: Seq<Seq<char>>)
    ensures
        forall|i: int| 0 <= i < dedupe_models(raws).len() ==> (#[trigger] dedupe_models(raws)[i]).0.len() > 0
            && exists|r: Seq<char>| raws.contains(r) && split_one_m(r).0 == dedupe_models(raws)[i].0,
        forall|i: int, j: int| 0 <= i < j < dedupe_models(raws).len() ==> (#[trigger] dedupe_models(raws)[i]).0
            != (#[trigger] dedupe_models(raws)[j]).0,
    decreases raws.len(),
{
    if raws.len() > 0 {
        let init = raws.drop_last();
        lemma_dedupe_sound(init);
        let d = dedupe_models(init);
        let dd = dedupe_models(raws);
        let (b, f) = split_one_m(raws.last());
        lemma_first_base_index(d, b);
        assert(raws[raws.len() - 1] == raws.last());
        if b.len() == 0 {
            assert(dd == d);
        } else {
            match first_base_index(d, b) {
                Some(k) => assert(dd == d.update(k, (b, d[k].1 || f))),
                None => assert(dd == d.push((b, f))),
            }
        }
        assert(dd.len() <= d.len() + 1);
        assert forall|i: int| 0 <= i < dd.len() implies (#[trigger] dd[i]).0.len() > 0
            && exists|r: Seq<char>| raws.contains(r) && split_one_m(r).0 == dd[i].0 by {
            if i < d.len() {
                assert(dd[i].0 == d[i].0);
                assert(d[i].0.len() > 0);
                let r = choose|r: Seq<char>| init.contains(r) && split_one_m(r).0 == d[i].0;
                let k = choose|k: int| 0 <= k < init.len() && init[k] == r;
                assert(raws[k] == init[k]);
                assert(raws.contains(r));
            } else {
                assert(dd[i].0 == b);
                assert(raws.contains(raws.last()));
            }
        }
        if b.len() > 0 && first_base_index(d, b) is None {
            assert forall|i: int, j: int| 0 <= i < j < dd.len() implies (#[trigger] dd[i]).0 != (#[trigger] dd[j]).0 by {
                if j < d.len() {
                    assert(dd[i] == d[i] && dd[j] == d[j]);
                } else {
                    assert(dd[i] == d[i]);
                    assert(dd[j].0 == b);
                    if d[i].0 == b {
                        assert(exists|m: int| 0 <= m < d.len() && #[trigger] d[m].0 == b);
                    }
                }
            }
        } else if b.len() > 0 {
            let k = first_base_index(d, b)->0;
            assert forall|i: int, j: int| 0 <= i < j < dd.len() implies (#[trigger] dd[i]).0 != (#[trigger] dd[j]).0 by {
                assert(dd[i].0 == d[i].0 && dd[j].0 == d[j].0);
            }
        }
    }
}

/// Each of a group's model entries comes from one of its slots: entry `i`
/// is `<key>:<base>` (with `[1M]` when marked) for the non-empty base model
/// of some slot value.
pub proof fn law_group_models_from_slots(key: Seq<char>, m: ModelMapping, i: int)
    requires
        0 <= i < model_entry_names(key, dedupe_models(tier_values(m))).len(),
    ensures
        exists|x: String| #![trigger is_slot_value(m, x)] is_slot_value(m, x) && split_one_m(x@).0.len() > 0 && (
            model_entry_names(key, dedupe_models(tier_values(m)))[i] == key + ":"@ + split_one_m(x@).0
            || model_entry_names(key, dedupe_models(tier_values(m)))[i] == key + ":"@ + split_one_m(x@).0 + "[1M]"@),
{
    let raws = tier_values(m);
    let d = dedupe_models(raws);
    lemma_model_entry_names(key, d, 0);
    lemma_model_entry_names(key, d, i);
    lemma_dedupe_sound(raws);
    law_tier_values_in_slot_order(m);
    let r = choose|r: Seq<char>| raws.contains(r) && split_one_m(r).0 == d[i].0;
    let slots = seq![m.sonnet_model, m.opus_model, m.fable_model, m.haiku_model, m.subagent_model, m.default_model];
    lemma_set_values_from(slots, r);
    let sj = choose|sj: int| 0 <= sj < slots.len() && slots[sj] is Some && slots[sj]->0@ == r;
    let x = slots[sj]->0;
    assert(is_slot_value(m, x));
    if !d[i].1 {
        assert(key + ":"@ + d[i].0 + one_m_suffix(d[i].1) =~= key + ":"@ + d[i].0);
    }
}

proof fn lemma_set_values_from(slots: Seq<Option<String>>, r: Seq<char>)
    requires
        set_values(slots).contains(r),
    ensures
        exists|sj: int| 0 <= sj < slots.len() && slots[sj] is Some && slots[sj]->0@ == r,
    decreases slots.len(),
{
    let prev = set_values(slots.drop_last());
    let k = choose|k: int| 0 <= k < set_values(slots).len() && set_values(slots)[k] == r;
    if k < prev.len() {
        match slots.last() {
            Some(y) => assert(set_values(slots)[k] == prev[k]),
            None => {},
        }
        assert(prev.contains(r));
        lemma_set_values_from(slots.drop_last(), r);
        let sj = choose|sj: int| 0 <= sj < slots.drop_last().len() && slots.drop_last()[sj] is Some && slots.drop_last()[sj]->0@ == r;
        assert(slots[sj] == slots.drop_last()[sj]);
    } else {
        assert(slots[slots.len() - 1] == slots.last());
    }
}

} // verus!
