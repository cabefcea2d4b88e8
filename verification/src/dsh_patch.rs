//! The DSH profile patch files (`<dsh home>/profiles/web/cordis.patch.yml`
//! and `profiles/desktop/cordis.patch.yml`; each is written, and the
//! listing merges both with the web profile winning): MCP servers live there
//! as `@deepseek-ai/dsh-mcp-client` plugin entries,
//! one `- insert:` patch entry per server. Other patch entries are kept as
//! they are, and the file is written back in DSH's own YAML style, whose
//! indentation DSH Desktop's line-level edits rely on (top-level entries at
//! 0-2 spaces, entries inside `insert` at 4 or more).
use vstd::prelude::*;
use crate::text::{
    str_chars, str_eq, chars_slice, concat_str, to_owned_string, push_str, string_from_chars,
    lines_of, text_lines, string_views, trim_start, trim_start_str, starts_with, starts_with_exec,
    contains_seq, occurs_at, find_first, str_contains, is_ascii_digit, is_ascii_alphanumeric,
    char_is_ascii_alphanumeric, ascii_lower_seq, eq_ignore_ascii_case, ends_with, ends_with_exec,
    decimal, decimal_signed, u64_to_decimal, i64_to_decimal,
};
use crate::route_prefix::ascii_eq_ignore_case;
use crate::yaml::{
    YamlValue, YamlNumber, YamlView, yview, yitems_view, ymap_view, lemma_seq_view, lemma_map_view,
    yget, yas_str, yaml_to_json, json_to_yaml, yaml_parse, to_json_v, to_yaml_v,
    spec_yaml_parse, find_ykey, ykey_index, json_plain, yaml_image, yaml_plain, json_image,
    lemma_plain_image, lemma_image_get, lemma_ykey_index, lemma_ykey_index_same_keys,
    tags_nonempty, has_nonempty_tags, lemma_plain_tags,
};
use crate::json::{
    JsonValue, JsonView, entries_view, entries_insert, entries_remove, lemma_object_view,
    object_insert, object_remove, copy_if_present, spec_get, spec_get_str, spec_as_bool,
    entries_get, keys_unique, law_get_after_insert, law_get_after_remove, lemma_key_index_is,
    lemma_key_index_none,
};

verus! {

/// The web profile: its entries win when both profiles list a server.
pub const DSH_PROFILE: &'static str = "web";

/// The desktop profile, written alongside the web one.
pub const DSH_DESKTOP_PROFILE: &'static str = "desktop";

/// The plugin whose entries are MCP servers.
pub const MCP_CLIENT_PLUGIN: &'static str = "@deepseek-ai/dsh-mcp-client";

// ---------------------------------------------------------------------------
// Comments and `!!js` tags
// ---------------------------------------------------------------------------

/// First index at which `pat` occurs in `s`.
pub open spec fn first_occurrence(s: Seq<char>, pat: Seq<char>) -> int {
    choose|i: int| occurs_at(s, pat, i) && forall|j: int| 0 <= j < i ==> !occurs_at(s, pat, j)
}

/// A line without its comment: a whole-line comment becomes empty, an
/// inline comment (` #`) is cut off.
pub open spec fn spec_strip_yaml_comment(line: Seq<char>) -> Seq<char> {
    if starts_with(trim_start(line), "#"@) {
        Seq::empty()
    } else if contains_seq(line, " #"@) {
        line.take(first_occurrence(line, " #"@))
    } else {
        line
    }
}

pub fn strip_yaml_comment(line: &str) -> (r: String)
    ensures
        r@ == spec_strip_yaml_comment(line@),
{
    let t = trim_start_str(line);
    if starts_with_exec(&str_chars(t.as_str()), &str_chars("#")) {
        return String::new();
    }
    let v = str_chars(line);
    let pat = str_chars(" #");
    match find_first(&v, &pat) {
        Some(i) => {
            proof {
                let c = first_occurrence(line@, " #"@);
                assert(occurs_at(line@, " #"@, i as int));
                if c < i {
                    assert(!occurs_at(line@, " #"@, c));
                } else if c > i {
                    assert(!occurs_at(line@, " #"@, i as int));
                }
            }
            chars_slice(&v, 0, i)
        },
        None => to_owned_string(line),
    }
}

/// Some line holds `!!js` outside its comment: serde_yaml cannot write such
/// expressions back, so the file is neither read nor written.
pub open spec fn spec_contains_yaml_tag_extensions(content: Seq<char>) -> bool {
    let ls = text_lines(content);
    exists|i: int| 0 <= i < ls.len() && contains_seq(spec_strip_yaml_comment(#[trigger] ls[i]), "!!js"@)
}

pub fn contains_yaml_tag_extensions(content: &str) -> (r: bool)
    ensures
        r == spec_contains_yaml_tag_extensions(content@),
{
    let ls = lines_of(content);
    let ghost lv = string_views(ls@);
    let mut i: usize = 0;
    while i < ls.len()
        invariant
            i <= ls@.len(),
            lv == string_views(ls@),
            lv == text_lines(content@),
            forall|j: int| 0 <= j < i ==> !contains_seq(spec_strip_yaml_comment(#[trigger] lv[j]), "!!js"@),
        decreases ls.len() - i,
    {
        let s = strip_yaml_comment(ls[i].as_str());
        if str_contains(s.as_str(), "!!js") {
            assert(contains_seq(spec_strip_yaml_comment(lv[i as int]), "!!js"@));
            return true;
        }
        i = i + 1;
    }
    false
}

/// A line of the header block: blank or a comment.
pub open spec fn is_header_line(line: Seq<char>) -> bool {
    trim_start(line).len() == 0 || starts_with(trim_start(line), "#"@)
}

/// Number of header lines at the start of `ls`.
pub open spec fn header_count(ls: Seq<Seq<char>>) -> nat
    decreases ls.len(),
{
    if ls.len() > 0 && is_header_line(ls[0]) {
        1 + header_count(ls.drop_first())
    } else {
        0
    }
}

/// The lines, each followed by `\n`.
pub open spec fn join_lines(ls: Seq<Seq<char>>) -> Seq<char>
    decreases ls.len(),
{
    if ls.len() == 0 {
        Seq::empty()
    } else {
        join_lines(ls.drop_last()) + ls.last() + "\n"@
    }
}

/// The header comment block (the lines before the first line that is
/// neither blank nor a comment), kept when the file is written back.
pub open spec fn spec_extract_header_comments(content: Seq<char>) -> Seq<char> {
    let ls = text_lines(content);
    join_lines(ls.take(header_count(ls) as int))
}

proof fn lemma_header_count(ls: Seq<Seq<char>>, i: int)
    requires
        0 <= i <= ls.len(),
        forall|j: int| 0 <= j < i ==> is_header_line(#[trigger] ls[j]),
        i == ls.len() || !is_header_line(ls[i]),
    ensures
        header_count(ls) == i,
    decreases i,
{
    if i > 0 {
        let t = ls.drop_first();
        assert forall|j: int| 0 <= j < i - 1 implies is_header_line(#[trigger] t[j]) by {
            assert(t[j] == ls[j + 1]);
        }
        if i - 1 < t.len() {
            assert(t[i - 1] == ls[i]);
        }
        lemma_header_count(t, i - 1);
    }
}

fn header_line(line: &str) -> (r: bool)
    ensures
        r == is_header_line(line@),
{
    let t = trim_start_str(line);
    let v = str_chars(t.as_str());
    v.len() == 0 || starts_with_exec(&v, &str_chars("#"))
}

pub fn extract_header_comments(content: &str) -> (r: String)
    ensures
        r@ == spec_extract_header_comments(content@),
{
    let ls = lines_of(content);
    let ghost lv = string_views(ls@);
    let mut header = String::new();
    let mut i: usize = 0;
    assert(lv.take(0) =~= Seq::<Seq<char>>::empty());
    while i < ls.len() && header_line(ls[i].as_str())
        invariant
            i <= ls@.len(),
            lv == string_views(ls@),
            header@ == join_lines(lv.take(i as int)),
            forall|j: int| 0 <= j < i ==> is_header_line(#[trigger] lv[j]),
        decreases ls.len() - i,
    {
        push_str(&mut header, ls[i].as_str());
        push_str(&mut header, "\n");
        assert(lv.take(i + 1).drop_last() =~= lv.take(i as int));
        i = i + 1;
    }
    proof {
        lemma_header_count(lv, i as int);
    }
    header
}

// ---------------------------------------------------------------------------
// Scalars in DSH style
// ---------------------------------------------------------------------------

/// Number of leading ASCII digits.
pub open spec fn leading_digits(s: Seq<char>) -> nat
    decreases s.len(),
{
    if s.len() > 0 && is_ascii_digit(s[0]) {
        1 + leading_digits(s.drop_first())
    } else {
        0
    }
}

pub open spec fn all_digits(s: Seq<char>) -> bool {
    forall|i: int| 0 <= i < s.len() ==> is_ascii_digit(#[trigger] s[i])
}

/// An exponent: `e` or `E`, an optional sign, one or more digits.
pub open spec fn is_exponent(s: Seq<char>) -> bool {
    s.len() >= 2 && (s[0] == 'e' || s[0] == 'E') && {
        let r = s.drop_first();
        let d = if r[0] == '+' || r[0] == '-' {
            r.drop_first()
        } else {
            r
        };
        d.len() > 0 && all_digits(d)
    }
}

/// Digits, an optional `.` with digits (at least one digit in all), and an
/// optional exponent.
pub open spec fn is_decimal_literal(s: Seq<char>) -> bool {
    let a = leading_digits(s);
    let rest = s.skip(a as int);
    let (b, tail) = if rest.len() > 0 && rest[0] == '.' {
        let f = rest.drop_first();
        (leading_digits(f), f.skip(leading_digits(f) as int))
    } else {
        (0nat, rest)
    };
    a + b > 0 && (tail.len() == 0 || is_exponent(tail))
}

/// What `str::parse::<f64>` accepts: an optional sign, then `inf`,
/// `infinity` or `nan` in any case, or a decimal literal.
pub open spec fn parses_as_float(s: Seq<char>) -> bool {
    let body = if s.len() > 0 && (s[0] == '+' || s[0] == '-') {
        s.drop_first()
    } else {
        s
    };
    ||| ascii_eq_ignore_case(body, "inf"@)
    ||| ascii_eq_ignore_case(body, "infinity"@)
    ||| ascii_eq_ignore_case(body, "nan"@)
    ||| is_decimal_literal(body)
}

fn leading_digits_from(v: &Vec<char>, a: usize) -> (r: usize)
    requires
        a <= v@.len(),
    ensures
        a <= r <= v@.len(),
        r - a == leading_digits(v@.skip(a as int)),
{
    let mut i = a;
    while i < v.len() && '0' <= v[i] && v[i] <= '9'
        invariant
            a <= i <= v@.len(),
            leading_digits(v@.skip(a as int)) == (i - a) + leading_digits(v@.skip(i as int)),
        decreases v.len() - i,
    {
        assert(v@.skip(i as int).drop_first() =~= v@.skip(i + 1));
        i = i + 1;
    }
    i
}

fn all_digits_from(v: &Vec<char>, a: usize) -> (r: bool)
    requires
        a <= v@.len(),
    ensures
        r == all_digits(v@.skip(a as int)),
{
    let e = leading_digits_from(v, a);
    proof {
        lemma_leading_digits(v@.skip(a as int));
        if e < v@.len() {
            assert(v@.skip(a as int)[e - a] == v@[e as int]);
        }
    }
    e == v.len()
}

proof fn lemma_leading_digits(s: Seq<char>)
    ensures
        leading_digits(s) <= s.len(),
        forall|i: int| 0 <= i < leading_digits(s) ==> is_ascii_digit(#[trigger] s[i]),
        leading_digits(s) < s.len() ==> !is_ascii_digit(s[leading_digits(s) as int]),
    decreases s.len(),
{
    if s.len() > 0 && is_ascii_digit(s[0]) {
        lemma_leading_digits(s.drop_first());
        assert forall|i: int| 0 <= i < leading_digits(s) implies is_ascii_digit(#[trigger] s[i]) by {
            if i > 0 {
                assert(s[i] == s.drop_first()[i - 1]);
            }
        }
    }
}

fn exponent_from(v: &Vec<char>, a: usize) -> (r: bool)
    requires
        a <= v@.len(),
    ensures
        r == is_exponent(v@.skip(a as int)),
{
    let ghost s = v@.skip(a as int);
    if v.len() - a < 2 || !(v[a] == 'e' || v[a] == 'E') {
        return false;
    }
    let mut d = a + 1;
    if v[d] == '+' || v[d] == '-' {
        d = d + 1;
    }
    proof {
        let r = s.drop_first();
        assert(r =~= v@.skip(a + 1));
        if r[0] == '+' || r[0] == '-' {
            assert(r.drop_first() =~= v@.skip(d as int));
        }
    }
    d < v.len() && all_digits_from(v, d)
}

fn decimal_literal_from(v: &Vec<char>, a: usize) -> (r: bool)
    requires
        a <= v@.len(),
    ensures
        r == is_decimal_literal(v@.skip(a as int)),
{
    let ghost s = v@.skip(a as int);
    let i = leading_digits_from(v, a);
    assert(s.skip((i - a) as int) =~= v@.skip(i as int));
    let mut b: usize = 0;
    let mut t = i;
    if i < v.len() && v[i] == '.' {
        let j = leading_digits_from(v, i + 1);
        proof {
            assert(v@.skip(i as int).drop_first() =~= v@.skip(i + 1));
            assert(v@.skip(i + 1).skip((j - i - 1) as int) =~= v@.skip(j as int));
        }
        b = j - i - 1;
        t = j;
    }
    (i - a) + b > 0 && (t == v.len() || exponent_from(v, t))
}

pub fn float_literal(s: &str) -> (r: bool)
    ensures
        r == parses_as_float(s@),
{
    let v = str_chars(s);
    let a: usize = if v.len() > 0 && (v[0] == '+' || v[0] == '-') {
        1
    } else {
        0
    };
    assert(a == 1 ==> s@.drop_first() =~= v@.skip(1));
    assert(a == 0 ==> s@ =~= v@.skip(0));
    let body = chars_slice(&v, a, v.len());
    assert(body@ =~= v@.skip(a as int));
    eq_ignore_ascii_case(body.as_str(), "inf") || eq_ignore_ascii_case(body.as_str(), "infinity")
        || eq_ignore_ascii_case(body.as_str(), "nan") || decimal_literal_from(&v, a)
}

/// The number forms that YAML reads and `parses_as_float` does not cover:
/// after an optional sign, `.inf` or `.nan` in any case, or a `0x`, `0o` or
/// `0b` radix prefix (quoted whatever follows it).
pub open spec fn is_yaml_number_form(s: Seq<char>) -> bool {
    let body = if s.len() > 0 && (s[0] == '+' || s[0] == '-') {
        s.drop_first()
    } else {
        s
    };
    ||| ascii_eq_ignore_case(body, ".inf"@)
    ||| ascii_eq_ignore_case(body, ".nan"@)
    ||| starts_with(body, "0x"@)
    ||| starts_with(body, "0o"@)
    ||| starts_with(body, "0b"@)
}

pub fn yaml_number_form(s: &str) -> (r: bool)
    ensures
        r == is_yaml_number_form(s@),
{
    let v = str_chars(s);
    let a: usize = if v.len() > 0 && (v[0] == '+' || v[0] == '-') {
        1
    } else {
        0
    };
    assert(a == 1 ==> s@.drop_first() =~= v@.skip(1));
    assert(a == 0 ==> s@ =~= v@.skip(0));
    let body = chars_slice(&v, a, v.len());
    assert(body@ =~= v@.skip(a as int));
    let bv = str_chars(body.as_str());
    eq_ignore_ascii_case(body.as_str(), ".inf") || eq_ignore_ascii_case(body.as_str(), ".nan")
        || starts_with_exec(&bv, &str_chars("0x")) || starts_with_exec(&bv, &str_chars("0o"))
        || starts_with_exec(&bv, &str_chars("0b"))
}

/// Characters a bare scalar may hold.
pub open spec fn is_bare_char(c: char) -> bool {
    is_ascii_alphanumeric(c) || c == '_' || c == '.' || c == '/' || c == '\\' || c == ':' || c
        == '=' || c == '-' || c == '+' || c == '*' || c == ',' || c == '@'
}

/// YAML words that would read as booleans, null or special floats.
pub open spec fn is_yaml_keyword(lower: Seq<char>) -> bool {
    lower == "true"@ || lower == "false"@ || lower == "yes"@ || lower == "no"@ || lower == "on"@
        || lower == "off"@ || lower == "null"@ || lower == "~"@ || lower == "inf"@ || lower
        == "nan"@
}

/// A string that can be written without quotes and reads back as the same
/// string: not empty, no trailing `:`, not a keyword, number or document
/// marker, a safe first character and only safe characters.
pub open spec fn spec_is_bare_safe(s: Seq<char>) -> bool {
    &&& s.len() > 0
    &&& !ends_with(s, ":"@)
    &&& !is_yaml_keyword(ascii_lower_seq(s))
    &&& !parses_as_float(s)
    &&& !is_yaml_number_form(s)
    &&& (is_ascii_alphanumeric(s[0]) || s[0] == '_' || s[0] == '*' || s[0] == '.' || s[0] == '-')
    &&& !(s == "-"@ || s == "--"@ || s == "---"@ || s == "..."@)
    &&& forall|i: int| 0 <= i < s.len() ==> is_bare_char(#[trigger] s[i])
}

fn bare_char(c: char) -> (r: bool)
    ensures
        r == is_bare_char(c),
{
    char_is_ascii_alphanumeric(c) || c == '_' || c == '.' || c == '/' || c == '\\' || c == ':'
        || c == '=' || c == '-' || c == '+' || c == '*' || c == ',' || c == '@'
}

fn yaml_keyword(s: &str) -> (r: bool)
    ensures
        r == is_yaml_keyword(ascii_lower_seq(s@)),
{
    let lower = crate::api_log::ascii_lowercase(s);
    let l = lower.as_str();
    str_eq(l, "true") || str_eq(l, "false") || str_eq(l, "yes") || str_eq(l, "no") || str_eq(
        l,
        "on",
    ) || str_eq(l, "off") || str_eq(l, "null") || str_eq(l, "~") || str_eq(l, "inf") || str_eq(
        l,
        "nan",
    )
}

pub fn is_bare_safe(s: &str) -> (r: bool)
    ensures
        r == spec_is_bare_safe(s@),
{
    let v = str_chars(s);
    if v.len() == 0 || ends_with_exec(&v, &str_chars(":")) {
        return false;
    }
    if yaml_keyword(s) {
        return false;
    }
    if float_literal(s) || yaml_number_form(s) {
        return false;
    }
    let first = v[0];
    if !(char_is_ascii_alphanumeric(first) || first == '_' || first == '*' || first == '.'
        || first == '-') {
        return false;
    }
    if str_eq(s, "-") || str_eq(s, "--") || str_eq(s, "---") || str_eq(s, "...") {
        return false;
    }
    let mut i: usize = 0;
    while i < v.len()
        invariant
            i <= v@.len(),
            v@ == s@,
            forall|j: int| 0 <= j < i ==> is_bare_char(#[trigger] v@[j]),
        decreases v.len() - i,
    {
        if !bare_char(v[i]) {
            return false;
        }
        i = i + 1;
    }
    true
}

pub open spec fn hex_digit(n: nat) -> char {
    if n < 10 {
        (('0' as nat) + n) as char
    } else {
        (('a' as nat) + (n - 10)) as char
    }
}

/// The escape of one character inside double quotes.
pub open spec fn escape_char(c: char) -> Seq<char> {
    if c == '"' {
        "\\\""@
    } else if c == '\\' {
        "\\\\"@
    } else if c == '\n' {
        "\\n"@
    } else if c == '\r' {
        "\\r"@
    } else if c == '\t' {
        "\\t"@
    } else if (c as u32) < 0x20 {
        seq!['\\', 'x', hex_digit((c as nat) / 16), hex_digit((c as nat) % 16)]
    } else {
        seq![c]
    }
}

pub open spec fn escape_all(s: Seq<char>) -> Seq<char>
    decreases s.len(),
{
    if s.len() == 0 {
        Seq::empty()
    } else {
        escape_all(s.drop_last()) + escape_char(s.last())
    }
}

/// Double quotes with YAML / js-yaml compatible escapes (`\xNN` for control
/// characters; non-ASCII stays as it is).
pub open spec fn spec_double_quote(s: Seq<char>) -> Seq<char> {
    "\""@ + escape_all(s) + "\""@
}

fn hex_char(n: u32) -> (r: char)
    requires
        n < 16,
    ensures
        r == hex_digit(n as nat),
{
    if n < 10 {
        ((48u32 + n) as u8) as char
    } else {
        ((97u32 + n - 10) as u8) as char
    }
}

fn push_escaped(out: &mut Vec<char>, c: char)
    ensures
        final(out)@ == old(out)@ + escape_char(c),
{
    proof {
        reveal_strlit("\\\"");
        reveal_strlit("\\\\");
        reveal_strlit("\\n");
        reveal_strlit("\\r");
        reveal_strlit("\\t");
    }
    if c == '"' {
        out.push('\\');
        out.push('"');
    } else if c == '\\' {
        out.push('\\');
        out.push('\\');
    } else if c == '\n' {
        out.push('\\');
        out.push('n');
    } else if c == '\r' {
        out.push('\\');
        out.push('r');
    } else if c == '\t' {
        out.push('\\');
        out.push('t');
    } else if (c as u32) < 0x20 {
        let n = c as u32;
        out.push('\\');
        out.push('x');
        out.push(hex_char(n / 16));
        out.push(hex_char(n % 16));
    } else {
        out.push(c);
    }
    assert(final(out)@ =~= old(out)@ + escape_char(c));
}

pub fn double_quote(s: &str) -> (r: String)
    ensures
        r@ == spec_double_quote(s@),
{
    let v = str_chars(s);
    let mut out: Vec<char> = Vec::new();
    out.push('"');
    let mut i: usize = 0;
    while i < v.len()
        invariant
            i <= v@.len(),
            v@ == s@,
            out@ == seq!['"'] + escape_all(v@.take(i as int)),
        decreases v.len() - i,
    {
        assert(v@.take(i + 1).drop_last() =~= v@.take(i as int));
        push_escaped(&mut out, v[i]);
        assert(out@ =~= seq!['"'] + escape_all(v@.take(i + 1)));
        i = i + 1;
    }
    out.push('"');
    assert(v@.take(v@.len() as int) =~= v@);
    proof {
        reveal_strlit("\"");
    }
    assert(out@ =~= spec_double_quote(s@));
    string_from_chars(&out)
}

pub open spec fn spec_quote_dsh_style(s: Seq<char>) -> Seq<char> {
    if spec_is_bare_safe(s) {
        s
    } else {
        spec_double_quote(s)
    }
}

/// A string scalar as DSH writes it: bare when safe, double-quoted otherwise.
pub fn quote_dsh_style(s: &str) -> (r: String)
    ensures
        r@ == spec_quote_dsh_style(s@),
{
    if is_bare_safe(s) {
        to_owned_string(s)
    } else {
        double_quote(s)
    }
}

// ---------------------------------------------------------------------------
// Writing YAML in DSH style
// ---------------------------------------------------------------------------

/// Errors of the patch file logic.
#[derive(Debug)]
pub enum DshPatchError {
    Config(String),
}

pub open spec fn tagged_entry_message() -> Seq<char> {
    "DSH cordis.patch.yml 含 !!js 扩展表达式条目，cc-switch 不重写该文件"@
}

pub open spec fn non_string_key_message() -> Seq<char> {
    "DSH cordis.patch.yml 存在非字符串键，cc-switch 无法安全序列化"@
}

/// A scalar's inline text; `None` for collections and tagged values.
pub open spec fn scalar_text_v(v: YamlView) -> Option<Seq<char>> {
    match v {
        YamlView::Null => Some("null"@),
        YamlView::Bool(b) => Some(if b { "true"@ } else { "false"@ }),
        YamlView::PosInt(n) => Some(decimal(n as nat)),
        YamlView::NegInt(n) => Some(decimal_signed(n as int)),
        YamlView::Float(t) => Some(t),
        YamlView::Str(s) => Some(spec_quote_dsh_style(s)),
        _ => None,
    }
}

pub type Emitted = Result<Seq<char>, Seq<char>>;

/// A block sequence: each item is `<indent>- ` and its body, whose own
/// lines are indented two more.
pub open spec fn emit_seq_v(items: Seq<YamlView>, indent: Seq<char>) -> Emitted
    decreases items,
{
    if items.len() == 0 {
        Ok(Seq::empty())
    } else {
        proof {
            assert(decreases_to!(items => items.subrange(0, items.len() - 1)));
            assert(decreases_to!(items => items[items.len() - 1]));
        }
        match emit_seq_v(items.subrange(0, items.len() - 1), indent) {
            Err(e) => Err(e),
            Ok(s) => match emit_body_v(items[items.len() - 1], indent + "  "@) {
                Err(e) => Err(e),
                Ok(b) => Ok(s + indent + "- "@ + b),
            },
        }
    }
}

/// What follows `- `: a scalar ends the line; a mapping puts its first key
/// on that line and the others at `base`; a nested sequence starts on the
/// next line, two further in.
pub open spec fn emit_body_v(v: YamlView, base: Seq<char>) -> Emitted
    decreases v,
{
    match scalar_text_v(v) {
        Some(t) => Ok(t + "\n"@),
        None => match v {
            YamlView::Entries(es) => emit_entries_v(es, base, false),
            YamlView::Items(items) => match emit_seq_v(items, base + "  "@) {
                Ok(s) => Ok("\n"@ + s),
                Err(e) => Err(e),
            },
            _ => Err(tagged_entry_message()),
        },
    }
}

/// Mapping entries at `base`; the first one is not indented unless `lead`.
pub open spec fn emit_entries_v(es: Seq<(YamlView, YamlView)>, base: Seq<char>, lead: bool) -> Emitted
    decreases es,
{
    if es.len() == 0 {
        Ok(Seq::empty())
    } else {
        proof {
            assert(decreases_to!(es => es.subrange(0, es.len() - 1)));
            assert(decreases_to!(es => es[es.len() - 1]));
            assert(decreases_to!(es[es.len() - 1] => es[es.len() - 1].1));
        }
        match emit_entries_v(es.subrange(0, es.len() - 1), base, lead) {
            Err(e) => Err(e),
            Ok(s) => {
                let pre = if es.len() > 1 || lead {
                    base
                } else {
                    Seq::empty()
                };
                match emit_entry_v(es[es.len() - 1].0, es[es.len() - 1].1, base) {
                    Err(e) => Err(e),
                    Ok(t) => Ok(s + pre + t),
                }
            },
        }
    }
}

/// `key: value`: scalars inline, empty collections as `[]` / `{}`, other
/// collections on the following lines two further in.
pub open spec fn emit_entry_v(k: YamlView, v: YamlView, base: Seq<char>) -> Emitted
    decreases v,
{
    match scalar_text_v(k) {
        None => Err(non_string_key_message()),
        Some(kt) => match scalar_text_v(v) {
            Some(t) => Ok(kt + ": "@ + t + "\n"@),
            None => match v {
                YamlView::Items(items) => if items.len() == 0 {
                    Ok(kt + ": []\n"@)
                } else {
                    match emit_seq_v(items, base + "  "@) {
                        Ok(s) => Ok(kt + ":\n"@ + s),
                        Err(e) => Err(e),
                    }
                },
                YamlView::Entries(es) => if es.len() == 0 {
                    Ok(kt + ": {}\n"@)
                } else {
                    match emit_entries_v(es, base + "  "@, true) {
                        Ok(s) => Ok(kt + ":\n"@ + s),
                        Err(e) => Err(e),
                    }
                },
                _ => Err(tagged_entry_message()),
            },
        },
    }
}

/// The whole file body: `[]` when there are no entries.
pub open spec fn spec_dump_patch_yaml(entries: Seq<YamlView>) -> Emitted {
    if entries.len() == 0 {
        Ok("[]\n"@)
    } else {
        emit_seq_v(entries, Seq::empty())
    }
}

/// `r` is what `e` says.
pub open spec fn emitted_as(r: Result<String, DshPatchError>, e: Emitted) -> bool {
    match r {
        Ok(s) => e == Ok::<Seq<char>, Seq<char>>(s@),
        Err(DshPatchError::Config(m)) => e == Err::<Seq<char>, Seq<char>>(m@),
    }
}

pub fn scalar_text(v: &YamlValue) -> (r: Option<String>)
    ensures
        match r {
            Some(t) => scalar_text_v(v@) == Some(t@),
            None => scalar_text_v(v@) is None,
        },
{
    match v {
        YamlValue::Null => Some(to_owned_string("null")),
        YamlValue::Bool(b) => Some(to_owned_string(if *b { "true" } else { "false" })),
        YamlValue::Number(YamlNumber::PosInt(n)) => Some(u64_to_decimal(*n)),
        YamlValue::Number(YamlNumber::NegInt(n)) => Some(i64_to_decimal(*n)),
        YamlValue::Number(YamlNumber::Float(t)) => Some(t.clone()),
        YamlValue::String(s) => Some(quote_dsh_style(s.as_str())),
        _ => None,
    }
}

fn tagged_error() -> (r: DshPatchError)
    ensures
        r matches DshPatchError::Config(m) && m@ == tagged_entry_message(),
{
    DshPatchError::Config(to_owned_string("DSH cordis.patch.yml 含 !!js 扩展表达式条目，cc-switch 不重写该文件"))
}

fn key_error() -> (r: DshPatchError)
    ensures
        r matches DshPatchError::Config(m) && m@ == non_string_key_message(),
{
    DshPatchError::Config(to_owned_string("DSH cordis.patch.yml 存在非字符串键，cc-switch 无法安全序列化"))
}

proof fn lemma_seq_err_at(iv: Seq<YamlView>, i: int, j: int, indent: Seq<char>)
    requires
        0 <= i < j <= iv.len(),
        emit_seq_v(iv.take(i + 1), indent) is Err,
    ensures
        emit_seq_v(iv.take(j), indent) == emit_seq_v(iv.take(i + 1), indent),
    decreases j,
{
    if j > i + 1 {
        assert(iv.take(j).subrange(0, j - 1) =~= iv.take(j - 1));
        lemma_seq_err_at(iv, i, j - 1, indent);
    }
}

proof fn lemma_entries_err_at(ev: Seq<(YamlView, YamlView)>, i: int, j: int, base: Seq<char>, lead: bool)
    requires
        0 <= i < j <= ev.len(),
        emit_entries_v(ev.take(i + 1), base, lead) is Err,
    ensures
        emit_entries_v(ev.take(j), base, lead) == emit_entries_v(ev.take(i + 1), base, lead),
    decreases j,
{
    if j > i + 1 {
        assert(ev.take(j).subrange(0, j - 1) =~= ev.take(j - 1));
        lemma_entries_err_at(ev, i, j - 1, base, lead);
    }
}

/// See `emit_seq_v`.
pub fn emit_sequence(items: &Vec<YamlValue>, indent: &str) -> (r: Result<String, DshPatchError>)
    ensures
        emitted_as(r, emit_seq_v(yitems_view(items@), indent@)),
    decreases items,
{
    let ghost iv = yitems_view(items@);
    let inner = concat_str(indent, "  ");
    let mut out = String::new();
    let mut i: usize = 0;
    assert(iv.take(0) =~= Seq::<YamlView>::empty());
    while i < items.len()
        invariant
            i <= items@.len(),
            iv == yitems_view(items@),
            inner@ == indent@ + "  "@,
            emit_seq_v(iv.take(i as int), indent@) == Ok::<Seq<char>, Seq<char>>(out@),
        decreases items.len() - i,
    {
        proof {
            assert(decreases_to!(*items => items@));
            assert(decreases_to!(items@ => items@[i as int]));
            assert(iv.take(i + 1).subrange(0, i as int) =~= iv.take(i as int));
            assert(iv.take(i + 1)[i as int] == items@[i as int]@);
        }
        match emit_entry_body(&items[i], inner.as_str()) {
            Ok(b) => {
                push_str(&mut out, indent);
                push_str(&mut out, "- ");
                push_str(&mut out, b.as_str());
            },
            Err(e) => {
                proof {
                    lemma_seq_err_at(iv, i as int, items@.len() as int, indent@);
                    assert(iv.take(items@.len() as int) =~= iv);
                }
                return Err(e);
            },
        }
        i = i + 1;
    }
    assert(iv.take(items@.len() as int) =~= iv);
    Ok(out)
}

/// See `emit_entries_v`.
fn emit_entries(v: &YamlValue, es: &Vec<(YamlValue, YamlValue)>, base: &str, lead: bool) -> (r: Result<String, DshPatchError>)
    requires
        *v == YamlValue::Mapping(*es),
    ensures
        emitted_as(r, emit_entries_v(ymap_view(es@), base@, lead)),
    decreases v, 0nat,
{
    let ghost ev = ymap_view(es@);
    let mut out = String::new();
    let mut i: usize = 0;
    assert(ev.take(0) =~= Seq::<(YamlView, YamlView)>::empty());
    while i < es.len()
        invariant
            *v == YamlValue::Mapping(*es),
            i <= es@.len(),
            ev == ymap_view(es@),
            emit_entries_v(ev.take(i as int), base@, lead) == Ok::<Seq<char>, Seq<char>>(out@),
        decreases es.len() - i,
    {
        proof {
            assert(decreases_to!(*v => (*v)->Mapping_0));
            assert(decreases_to!(*es => es@));
            assert(decreases_to!(es@ => es@[i as int]));
            assert(decreases_to!(es@[i as int] => es@[i as int].1));
            assert(ev.take(i + 1).subrange(0, i as int) =~= ev.take(i as int));
            assert(ev.take(i + 1)[i as int] == (es@[i as int].0@, es@[i as int].1@));
        }
        match emit_mapping_entry(&es[i].0, &es[i].1, base) {
            Ok(t) => {
                if i > 0 || lead {
                    push_str(&mut out, base);
                }
                push_str(&mut out, t.as_str());
            },
            Err(e) => {
                proof {
                    lemma_entries_err_at(ev, i as int, es@.len() as int, base@, lead);
                    assert(ev.take(es@.len() as int) =~= ev);
                }
                return Err(e);
            },
        }
        i = i + 1;
    }
    assert(ev.take(es@.len() as int) =~= ev);
    Ok(out)
}

/// See `emit_body_v`.
pub fn emit_entry_body(value: &YamlValue, base: &str) -> (r: Result<String, DshPatchError>)
    ensures
        emitted_as(r, emit_body_v(value@, base@)),
    decreases value, 1nat,
{
    match scalar_text(value) {
        Some(t) => {
            let mut out = t;
            push_str(&mut out, "\n");
            return Ok(out);
        },
        None => {},
    }
    match value {
        YamlValue::Mapping(es) => {
            proof {
                lemma_map_view(*es);
            }
            emit_entries(value, es, base, false)
        },
        YamlValue::Sequence(items) => {
            proof {
                lemma_seq_view(*items);
                assert(decreases_to!(*value => (*value)->Sequence_0));
            }
            let inner = concat_str(base, "  ");
            match emit_sequence(items, inner.as_str()) {
                Ok(s) => Ok(concat_str("\n", s.as_str())),
                Err(e) => Err(e),
            }
        },
        _ => Err(tagged_error()),
    }
}

/// See `emit_entry_v`.
pub fn emit_mapping_entry(key: &YamlValue, value: &YamlValue, base: &str) -> (r: Result<String, DshPatchError>)
    ensures
        emitted_as(r, emit_entry_v(key@, value@, base@)),
    decreases value, 1nat,
{
    let key_text = match scalar_text(key) {
        Some(k) => k,
        None => return Err(key_error()),
    };
    match scalar_text(value) {
        Some(t) => {
            let mut out = key_text;
            push_str(&mut out, ": ");
            push_str(&mut out, t.as_str());
            push_str(&mut out, "\n");
            return Ok(out);
        },
        None => {},
    }
    let inner = concat_str(base, "  ");
    match value {
        YamlValue::Sequence(items) => {
            proof {
                lemma_seq_view(*items);
                assert(decreases_to!(*value => (*value)->Sequence_0));
            }
            if items.len() == 0 {
                Ok(concat_str(key_text.as_str(), ": []\n"))
            } else {
                match emit_sequence(items, inner.as_str()) {
                    Ok(s) => {
                        let mut out = key_text;
                        push_str(&mut out, ":\n");
                        push_str(&mut out, s.as_str());
                        Ok(out)
                    },
                    Err(e) => Err(e),
                }
            }
        },
        YamlValue::Mapping(es) => {
            proof {
                lemma_map_view(*es);
            }
            if es.len() == 0 {
                Ok(concat_str(key_text.as_str(), ": {}\n"))
            } else {
                match emit_entries(value, es, inner.as_str(), true) {
                    Ok(s) => {
                        let mut out = key_text;
                        push_str(&mut out, ":\n");
                        push_str(&mut out, s.as_str());
                        Ok(out)
                    },
                    Err(e) => Err(e),
                }
            }
        },
        _ => Err(tagged_error()),
    }
}

/// Serializes patch entries the way DSH's own writers do (js-yaml, indent
/// 2): items of a sequence two further in than their key, `[]` for none.
pub fn dump_patch_yaml(entries: &Vec<YamlValue>) -> (r: Result<String, DshPatchError>)
    ensures
        emitted_as(r, spec_dump_patch_yaml(yitems_view(entries@))),
{
    if entries.len() == 0 {
        return Ok(to_owned_string("[]\n"));
    }
    proof {
        reveal_strlit("");
        assert(""@ =~= Seq::<char>::empty());
    }
    emit_sequence(entries, "")
}

// ---------------------------------------------------------------------------
// MCP client plugin entries
// ---------------------------------------------------------------------------

/// The server name of an MCP client plugin entry (`name` is the client
/// plugin and `config.serverName` a string); `None` for anything else.
#[verifier::opaque]
pub open spec fn plugin_server_name(item: YamlView) -> Option<Seq<char>> {
    match yget(item, "name"@) {
        Some(n) => if yas_str(n) == Some(MCP_CLIENT_PLUGIN@) {
            match yget(item, "config"@) {
                Some(c) => match yget(c, "serverName"@) {
                    Some(x) => yas_str(x),
                    None => None,
                },
                None => None,
            }
        } else {
            None
        },
        None => None,
    }
}

/// The `insert` list of a patch entry, when it has one.
#[verifier::opaque]
pub open spec fn insert_items(entry: YamlView) -> Option<Seq<YamlView>> {
    match yget(entry, "insert"@) {
        Some(YamlView::Items(xs)) => Some(xs),
        _ => None,
    }
}

/// MCP client plugin entries among the items of the `insert` of patch entry `p`.
pub open spec fn found_in_items(p: int, items: Seq<YamlView>) -> Seq<(int, int, Seq<char>)>
    decreases items.len(),
{
    if items.len() == 0 {
        Seq::empty()
    } else {
        let prev = found_in_items(p, items.drop_last());
        match plugin_server_name(items.last()) {
            Some(n) => prev.push((p, items.len() - 1, n)),
            None => prev,
        }
    }
}

/// Every MCP client plugin entry as (patch entry, item in its `insert`,
/// server name), in file order; entries of another shape are skipped.
pub open spec fn mcp_client_entries(es: Seq<YamlView>) -> Seq<(int, int, Seq<char>)>
    decreases es.len(),
{
    if es.len() == 0 {
        Seq::empty()
    } else {
        mcp_client_entries(es.drop_last()) + match insert_items(es.last()) {
            Some(items) => found_in_items(es.len() - 1, items),
            None => Seq::empty(),
        }
    }
}

pub open spec fn found_views(v: Seq<(usize, usize, String)>) -> Seq<(int, int, Seq<char>)> {
    v.map_values(|f: (usize, usize, String)| (f.0 as int, f.1 as int, f.2@))
}

fn plugin_name_of(item: &YamlValue) -> (r: Option<String>)
    ensures
        match r {
            Some(n) => plugin_server_name(item@) == Some(n@),
            None => plugin_server_name(item@) is None,
        },
{
    reveal(plugin_server_name);
    let is_client = match item.get("name") {
        Some(n) => match n.as_str() {
            Some(s) => str_eq(s, MCP_CLIENT_PLUGIN),
            None => false,
        },
        None => false,
    };
    if !is_client {
        return None;
    }
    match item.get("config") {
        Some(c) => match c.get("serverName") {
            Some(x) => match x.as_str() {
                Some(s) => Some(to_owned_string(s)),
                None => None,
            },
            None => None,
        },
        None => None,
    }
}

fn push_found_in_items(found: &mut Vec<(usize, usize, String)>, p: usize, items: &Vec<YamlValue>)
    ensures
        found_views(final(found)@) == found_views(old(found)@) + found_in_items(p as int, yitems_view(items@)),
{
    let ghost xs = yitems_view(items@);
    let ghost before = found_views(found@);
    let mut i: usize = 0;
    assert(xs.take(0) =~= Seq::<YamlView>::empty());
    assert(before + found_in_items(p as int, xs.take(0)) =~= before);
    while i < items.len()
        invariant
            i <= items@.len(),
            xs == yitems_view(items@),
            found_views(found@) == before + found_in_items(p as int, xs.take(i as int)),
        decreases items.len() - i,
    {
        assert(xs.take(i + 1).drop_last() =~= xs.take(i as int));
        assert(xs.take(i + 1).last() == items@[i as int]@);
        let ghost mid = found_views(found@);
        match plugin_name_of(&items[i]) {
            Some(n) => {
                found.push((p, i, n));
                assert(found_views(found@) =~= mid.push((p as int, i as int, n@)));
            },
            None => {},
        }
        i = i + 1;
    }
    assert(xs.take(items@.len() as int) =~= xs);
}

proof fn lemma_entries_step(ev: Seq<YamlView>, p: int)
    requires
        0 <= p < ev.len(),
    ensures
        mcp_client_entries(ev.take(p + 1)) == mcp_client_entries(ev.take(p)) + match insert_items(ev[p]) {
            Some(items) => found_in_items(p, items),
            None => Seq::empty(),
        },
{
    assert(ev.take(p + 1).drop_last() =~= ev.take(p));
    assert(ev.take(p + 1).last() == ev[p]);
}

/// The MCP client plugin entries of a patch (see `mcp_client_entries`).
pub fn find_mcp_client_entries(entries: &Vec<YamlValue>) -> (r: Vec<(usize, usize, String)>)
    ensures
        found_views(r@) == mcp_client_entries(yitems_view(entries@)),
{
    let ghost ev = yitems_view(entries@);
    let mut found: Vec<(usize, usize, String)> = Vec::new();
    let mut p: usize = 0;
    assert(ev.take(0) =~= Seq::<YamlView>::empty());
    assert(found_views(found@) =~= Seq::<(int, int, Seq<char>)>::empty());
    while p < entries.len()
        invariant
            p <= entries@.len(),
            ev == yitems_view(entries@),
            found_views(found@) == mcp_client_entries(ev.take(p as int)),
        decreases entries.len() - p,
    {
        proof {
            lemma_entries_step(ev, p as int);
        }
        let ghost before = found_views(found@);
        match entries[p].get("insert") {
            Some(YamlValue::Sequence(items)) => {
                proof {
                    lemma_seq_view(*items);
                    reveal(insert_items);
                }
                push_found_in_items(&mut found, p, items);
            },
            _ => {
                proof {
                    reveal(insert_items);
                }
                assert(before + Seq::<(int, int, Seq<char>)>::empty() =~= before);
            },
        }
        p = p + 1;
    }
    assert(ev.take(entries@.len() as int) =~= ev);
    found
}

proof fn lemma_found_in_items(p: int, items: Seq<YamlView>, k: int)
    requires
        0 <= k < found_in_items(p, items).len(),
    ensures
        found_in_items(p, items)[k].0 == p,
        0 <= found_in_items(p, items)[k].1 < items.len(),
        plugin_server_name(items[found_in_items(p, items)[k].1]) == Some(found_in_items(p, items)[k].2),
    decreases items.len(),
{
    let prev = found_in_items(p, items.drop_last());
    if k < prev.len() {
        lemma_found_in_items(p, items.drop_last(), k);
    }
}

/// Each found entry points at an existing MCP client plugin item.
pub proof fn lemma_mcp_client_entries(es: Seq<YamlView>, k: int)
    requires
        0 <= k < mcp_client_entries(es).len(),
    ensures
        ({
            let f = mcp_client_entries(es)[k];
            &&& 0 <= f.0 < es.len()
            &&& insert_items(es[f.0]) is Some
            &&& 0 <= f.1 < insert_items(es[f.0])->0.len()
            &&& plugin_server_name(insert_items(es[f.0])->0[f.1]) == Some(f.2)
        }),
    decreases es.len(),
{
    let prev = mcp_client_entries(es.drop_last());
    if k < prev.len() {
        lemma_mcp_client_entries(es.drop_last(), k);
    } else {
        let items = insert_items(es.last())->0;
        lemma_found_in_items(es.len() - 1, items, k - prev.len());
    }
}

/// The server definition of a plugin item: its `config` as JSON without
/// `serverName`; `None` when there is no `config` or it cannot be converted
/// (a tag without text included).
pub open spec fn plugin_config_v(plugin: YamlView) -> Option<JsonView> {
    match yget(plugin, "config"@) {
        Some(c) => if !tags_nonempty(c) {
            None
        } else {
            match to_json_v(c) {
            Ok(j) => Some(
                match j {
                    JsonView::Object(es) => JsonView::Object(entries_remove(es, "serverName"@)),
                    _ => j,
                },
            ),
            Err(_) => None,
        }
        },
        None => None,
    }
}

pub fn plugin_config_to_json(plugin: &YamlValue) -> (r: Option<JsonValue>)
    ensures
        match r {
            Some(j) => plugin_config_v(plugin@) == Some(j@),
            None => plugin_config_v(plugin@) is None,
        },
{
    let config = match plugin.get("config") {
        Some(c) => c,
        None => return None,
    };
    if !has_nonempty_tags(config) {
        return None;
    }
    let j = match yaml_to_json(config) {
        Ok(j) => j,
        Err(_) => return None,
    };
    match j {
        JsonValue::Object(mut es) => {
            proof {
                lemma_object_view(es);
            }
            object_remove(&mut es, "serverName");
            proof {
                lemma_object_view(es);
            }
            Some(JsonValue::Object(es))
        },
        other => Some(other),
    }
}

/// The servers of a patch: (server name, definition) for each MCP client
/// plugin entry in file order (`{}` when the definition cannot be read).
pub open spec fn spec_servers(es: Seq<YamlView>) -> Seq<(Seq<char>, JsonView)> {
    let found = mcp_client_entries(es);
    Seq::new(
        found.len(),
        |k: int|
            {
                let f = found[k];
                let plugin = insert_items(es[f.0])->0[f.1];
                (
                    f.2,
                    match plugin_config_v(plugin) {
                        Some(j) => j,
                        None => JsonView::Object(Seq::empty()),
                    },
                )
            },
    )
}

pub open spec fn server_views(v: Seq<(String, JsonValue)>) -> Seq<(Seq<char>, JsonView)> {
    v.map_values(|s: (String, JsonValue)| (s.0@, s.1@))
}

pub open spec fn config_or_empty(o: Option<JsonView>) -> JsonView {
    match o {
        Some(j) => j,
        None => JsonView::Object(Seq::empty()),
    }
}

fn server_config_at(entries: &Vec<YamlValue>, p: usize, i: usize) -> (r: JsonValue)
    requires
        p < entries@.len(),
        insert_items(entries@[p as int]@) is Some,
        i < insert_items(entries@[p as int]@)->0.len(),
    ensures
        r@ == config_or_empty(plugin_config_v(insert_items(entries@[p as int]@)->0[i as int])),
{
    reveal(insert_items);
    match entries[p].get("insert") {
        Some(YamlValue::Sequence(items)) => {
            proof {
                lemma_seq_view(*items);
            }
            match plugin_config_to_json(&items[i]) {
                Some(j) => j,
                None => {
                    let empty: Vec<(String, JsonValue)> = Vec::new();
                    proof {
                        lemma_object_view(empty);
                        assert(entries_view(empty@) =~= Seq::<(Seq<char>, JsonView)>::empty());
                    }
                    JsonValue::Object(empty)
                },
            }
        },
        _ => {
            assert(false);
            JsonValue::Null
        },
    }
}

/// Reads the servers of a patch (see `spec_servers`).
pub fn get_servers(entries: &Vec<YamlValue>) -> (r: Vec<(String, JsonValue)>)
    ensures
        server_views(r@) == spec_servers(yitems_view(entries@)),
{
    let ghost ev = yitems_view(entries@);
    let found = find_mcp_client_entries(entries);
    let mut out: Vec<(String, JsonValue)> = Vec::new();
    let mut k: usize = 0;
    while k < found.len()
        invariant
            k <= found@.len(),
            ev == yitems_view(entries@),
            found_views(found@) == mcp_client_entries(ev),
            out@.len() == k,
            forall|j: int| 0 <= j < k ==> (#[trigger] server_views(out@)[j]) == spec_servers(ev)[j],
        decreases found.len() - k,
    {
        let p = found[k].0;
        let i = found[k].1;
        proof {
            lemma_mcp_client_entries(ev, k as int);
            assert(found_views(found@)[k as int] == (p as int, i as int, found@[k as int].2@));
            assert(ev[p as int] == entries@[p as int]@);
        }
        let config = server_config_at(entries, p, i);
        let ghost prev = server_views(out@);
        out.push((found[k].2.clone(), config));
        assert(server_views(out@) =~= prev.push((found@[k as int].2@, config@)));
        k = k + 1;
    }
    assert(server_views(out@) =~= spec_servers(ev));
    out
}

// ---------------------------------------------------------------------------
// Both profiles
// ---------------------------------------------------------------------------

/// Some entry of `xs` is named `name`.
pub open spec fn names_contain(xs: Seq<(Seq<char>, JsonView)>, name: Seq<char>) -> bool {
    exists|j: int| 0 <= j < xs.len() && (#[trigger] xs[j]).0 == name
}

/// `xs` without the entries whose name occurred earlier: the first entry of
/// each name wins.
pub open spec fn first_by_name(xs: Seq<(Seq<char>, JsonView)>) -> Seq<(Seq<char>, JsonView)>
    decreases xs.len(),
{
    if xs.len() == 0 {
        Seq::empty()
    } else {
        let prev = first_by_name(xs.drop_last());
        if names_contain(prev, xs.last().0) {
            prev
        } else {
            prev.push(xs.last())
        }
    }
}

/// The servers of the profiles that could be read, in profile order.
pub open spec fn read_views<E>(reads: Seq<Result<Vec<(String, JsonValue)>, E>>) -> Seq<(Seq<char>, JsonView)>
    decreases reads.len(),
{
    if reads.len() == 0 {
        Seq::empty()
    } else {
        read_views(reads.drop_last()) + match reads.last() {
            Ok(v) => server_views(v@),
            Err(_) => Seq::empty(),
        }
    }
}

fn names_contain_exec(out: &Vec<(String, JsonValue)>, name: &str) -> (r: bool)
    ensures
        r == names_contain(server_views(out@), name@),
{
    let ghost sv = server_views(out@);
    let mut i: usize = 0;
    while i < out.len()
        invariant
            i <= out@.len(),
            sv == server_views(out@),
            forall|j: int| 0 <= j < i ==> (#[trigger] sv[j]).0 != name@,
        decreases out.len() - i,
    {
        if str_eq(out[i].0.as_str(), name) {
            assert(sv[i as int].0 == name@);
            return true;
        }
        i = i + 1;
    }
    false
}

/// Adds the entries of `xs` whose name is not listed yet, in order.
fn add_first_by_name(out: &mut Vec<(String, JsonValue)>, xs: &Vec<(String, JsonValue)>, Ghost(before): Ghost<Seq<(Seq<char>, JsonView)>>)
    requires
        server_views(old(out)@) == first_by_name(before),
    ensures
        server_views(final(out)@) == first_by_name(before + server_views(xs@)),
{
    let ghost xv = server_views(xs@);
    let mut i: usize = 0;
    assert(before + xv.take(0) =~= before);
    while i < xs.len()
        invariant
            i <= xs@.len(),
            xv == server_views(xs@),
            server_views(out@) == first_by_name(before + xv.take(i as int)),
        decreases xs.len() - i,
    {
        let ghost cur = before + xv.take(i as int);
        let ghost next = before + xv.take(i + 1);
        assert(next.drop_last() =~= cur);
        assert(next.last() == xv[i as int]);
        if !names_contain_exec(out, xs[i].0.as_str()) {
            let ghost prev = server_views(out@);
            out.push((xs[i].0.clone(), xs[i].1.deep_copy()));
            assert(server_views(out@) =~= prev.push(xv[i as int]));
        }
        i = i + 1;
    }
    assert(xv.take(xs@.len() as int) =~= xv);
}

/// `rs[i]` is the first error of `rs`.
pub open spec fn first_error_at<T, E>(rs: Seq<Result<T, E>>, i: int) -> bool {
    &&& 0 <= i < rs.len()
    &&& rs[i] is Err
    &&& forall|j: int| 0 <= j < i ==> (#[trigger] rs[j]) is Ok
}

/// The listing of several profiles (web first): when every profile could be
/// read (an absent file reads as an empty patch), their servers merged by
/// name with the earlier profile winning; when a present file was rejected,
/// the first rejection's error.
pub fn merge_profile_reads<E>(reads: Vec<Result<Vec<(String, JsonValue)>, E>>) -> (r: Result<Vec<(String, JsonValue)>, E>)
    ensures
        (forall|i: int| 0 <= i < reads@.len() ==> (#[trigger] reads@[i]) is Ok) ==> (r is Ok
            && server_views(r->Ok_0@) == first_by_name(read_views(reads@))),
        (exists|i: int| 0 <= i < reads@.len() && (#[trigger] reads@[i]) is Err) ==> (r is Err
            && exists|i: int| first_error_at(reads@, i) && r->Err_0 == reads@[i]->Err_0),
{
    let ghost rv = reads@;
    let mut rs = reads;
    let mut out: Vec<(String, JsonValue)> = Vec::new();
    let mut failed: Option<usize> = None;
    let mut i: usize = 0;
    assert(server_views(out@) =~= first_by_name(Seq::empty()));
    assert(rv.take(0) =~= Seq::<Result<Vec<(String, JsonValue)>, E>>::empty());
    while i < rs.len()
        invariant
            i <= rs@.len(),
            rs@ == rv,
            rv == reads@,
            failed is None ==> forall|j: int| 0 <= j < i ==> (#[trigger] rv[j]) is Ok,
            failed is None ==> server_views(out@) == first_by_name(read_views(rv.take(i as int))),
            failed matches Some(k) ==> k < i && first_error_at(rv, k as int),
        decreases rs.len() - i,
    {
        let ghost before = read_views(rv.take(i as int));
        assert(rv.take(i + 1).drop_last() =~= rv.take(i as int));
        assert(rv.take(i + 1).last() == rv[i as int]);
        match &rs[i] {
            Ok(xs) => {
                if failed.is_none() {
                    add_first_by_name(&mut out, xs, Ghost(before));
                }
            },
            Err(_) => {
                if failed.is_none() {
                    failed = Some(i);
                }
            },
        }
        i = i + 1;
    }
    assert(rv.take(rv.len() as int) =~= rv);
    match failed {
        None => Ok(out),
        Some(k) => {
            assert(first_error_at(rv, k as int));
            match rs.remove(k) {
                Err(e) => Err(e),
                Ok(_) => {
                    assert(false);
                    Ok(out)
                },
            }
        },
    }
}

proof fn lemma_first_by_name(xs: Seq<(Seq<char>, JsonView)>)
    ensures
        forall|n: Seq<char>| #[trigger] names_contain(first_by_name(xs), n) == names_contain(xs, n),
        forall|a: int, b: int|
            0 <= a < b < first_by_name(xs).len() ==> (#[trigger] first_by_name(xs)[a]).0 != (
            #[trigger] first_by_name(xs)[b]).0,
        forall|k: int|
            0 <= k < first_by_name(xs).len() ==> exists|i: int|
                0 <= i < xs.len() && xs[i] == #[trigger] first_by_name(xs)[k] && forall|j: int|
                    0 <= j < i ==> (#[trigger] xs[j]).0 != first_by_name(xs)[k].0,
    decreases xs.len(),
{
    if xs.len() > 0 {
        let init = xs.drop_last();
        let last = xs.last();
        lemma_first_by_name(init);
        let prev = first_by_name(init);
        let fb = first_by_name(xs);
        assert forall|n: Seq<char>| #[trigger] names_contain(fb, n) == names_contain(xs, n) by {
            if names_contain(xs, n) {
                let j = choose|j: int| 0 <= j < xs.len() && (#[trigger] xs[j]).0 == n;
                if j < init.len() {
                    assert(init[j] == xs[j]);
                    assert(names_contain(init, n));
                    assert(names_contain(prev, n));
                    let q = choose|q: int| 0 <= q < prev.len() && (#[trigger] prev[q]).0 == n;
                    assert(fb[q] == prev[q]);
                } else {
                    if !names_contain(prev, last.0) {
                        assert(fb[prev.len() as int] == last);
                    }
                }
            }
            if names_contain(fb, n) {
                let q = choose|q: int| 0 <= q < fb.len() && (#[trigger] fb[q]).0 == n;
                if q < prev.len() {
                    assert(fb[q] == prev[q]);
                    assert(names_contain(prev, n));
                    let j = choose|j: int| 0 <= j < init.len() && (#[trigger] init[j]).0 == n;
                    assert(xs[j] == init[j]);
                } else {
                    assert(fb[q] == last);
                    assert(xs[xs.len() - 1] == last);
                }
            }
        }
        assert forall|k: int| 0 <= k < fb.len() implies exists|i: int|
            0 <= i < xs.len() && xs[i] == #[trigger] fb[k] && forall|j: int|
                0 <= j < i ==> (#[trigger] xs[j]).0 != fb[k].0 by {
            if k < prev.len() {
                assert(fb[k] == prev[k]);
                let i = choose|i: int|
                    0 <= i < init.len() && init[i] == #[trigger] prev[k] && forall|j: int|
                        0 <= j < i ==> (#[trigger] init[j]).0 != prev[k].0;
                assert(xs[i] == init[i]);
                assert forall|j: int| 0 <= j < i implies (#[trigger] xs[j]).0 != fb[k].0 by {
                    assert(xs[j] == init[j]);
                }
            } else {
                assert(fb[k] == last);
                assert(!names_contain(prev, last.0));
                assert(!names_contain(init, last.0));
                assert(xs[xs.len() - 1] == last);
                assert forall|j: int| 0 <= j < xs.len() - 1 implies (#[trigger] xs[j]).0 != fb[k].0 by {
                    assert(xs[j] == init[j]);
                    if init[j].0 == last.0 {
                        assert(names_contain(init, last.0));
                    }
                }
            }
        }
        assert forall|a: int, b: int| 0 <= a < b < fb.len() implies (#[trigger] fb[a]).0 != (#[trigger] fb[b]).0 by {
            if b < prev.len() {
                assert(fb[a] == prev[a] && fb[b] == prev[b]);
            } else {
                assert(fb[a] == prev[a]);
                assert(fb[b] == last);
                if prev[a].0 == last.0 {
                    assert(names_contain(prev, last.0));
                }
            }
        }
    }
}

/// Merging the listings of the web and the desktop profile: every server
/// of either is listed once; a server the web profile lists comes with the
/// web profile's first entry of that name, any other with the desktop
/// profile's first entry of that name.
pub proof fn law_merge_profiles(web: Seq<(Seq<char>, JsonView)>, desktop: Seq<(Seq<char>, JsonView)>)
    ensures
        forall|n: Seq<char>| #[trigger] names_contain(first_by_name(web + desktop), n) == (names_contain(web, n) || names_contain(desktop, n)),
        forall|a: int, b: int|
            0 <= a < b < first_by_name(web + desktop).len() ==> (#[trigger] first_by_name(web + desktop)[a]).0 != (
            #[trigger] first_by_name(web + desktop)[b]).0,
        forall|k: int|
            0 <= k < first_by_name(web + desktop).len() && names_contain(web, first_by_name(web + desktop)[k].0) ==> exists|i: int|
                0 <= i < web.len() && web[i] == #[trigger] first_by_name(web + desktop)[k] && forall|j: int|
                    0 <= j < i ==> (#[trigger] web[j]).0 != first_by_name(web + desktop)[k].0,
        forall|k: int|
            0 <= k < first_by_name(web + desktop).len() && !names_contain(web, first_by_name(web + desktop)[k].0) ==> exists|i: int|
                0 <= i < desktop.len() && desktop[i] == #[trigger] first_by_name(web + desktop)[k] && forall|j: int|
                    0 <= j < i ==> (#[trigger] desktop[j]).0 != first_by_name(web + desktop)[k].0,
{
    let xs = web + desktop;
    let m = first_by_name(xs);
    lemma_first_by_name(xs);
    assert forall|n: Seq<char>| #[trigger] names_contain(m, n) == (names_contain(web, n) || names_contain(desktop, n)) by {
        if names_contain(xs, n) {
            let j = choose|j: int| 0 <= j < xs.len() && (#[trigger] xs[j]).0 == n;
            if j < web.len() {
                assert(web[j] == xs[j]);
            } else {
                assert(desktop[j - web.len()] == xs[j]);
            }
        }
        if names_contain(web, n) {
            let j = choose|j: int| 0 <= j < web.len() && (#[trigger] web[j]).0 == n;
            assert(xs[j] == web[j]);
        }
        if names_contain(desktop, n) {
            let j = choose|j: int| 0 <= j < desktop.len() && (#[trigger] desktop[j]).0 == n;
            assert(xs[web.len() + j] == desktop[j]);
        }
    }
    assert forall|k: int|
        0 <= k < m.len() && names_contain(web, m[k].0) implies exists|i: int|
            0 <= i < web.len() && web[i] == #[trigger] m[k] && forall|j: int|
                0 <= j < i ==> (#[trigger] web[j]).0 != m[k].0 by {
        let i = choose|i: int|
            0 <= i < xs.len() && xs[i] == #[trigger] m[k] && forall|j: int| 0 <= j < i ==> (#[trigger] xs[j]).0 != m[k].0;
        let w = choose|j: int| 0 <= j < web.len() && (#[trigger] web[j]).0 == m[k].0;
        assert(xs[w] == web[w]);
        assert(i <= w);
        assert(web[i] == xs[i]);
        assert forall|j: int| 0 <= j < i implies (#[trigger] web[j]).0 != m[k].0 by {
            assert(xs[j] == web[j]);
        }
    }
    assert forall|k: int|
        0 <= k < m.len() && !names_contain(web, m[k].0) implies exists|i: int|
            0 <= i < desktop.len() && desktop[i] == #[trigger] m[k] && forall|j: int|
                0 <= j < i ==> (#[trigger] desktop[j]).0 != m[k].0 by {
        let i = choose|i: int|
            0 <= i < xs.len() && xs[i] == #[trigger] m[k] && forall|j: int| 0 <= j < i ==> (#[trigger] xs[j]).0 != m[k].0;
        if i < web.len() {
            assert(web[i] == xs[i]);
            assert(names_contain(web, m[k].0));
        }
        let d = i - web.len();
        assert(desktop[d] == xs[i]);
        assert forall|j: int| 0 <= j < d implies (#[trigger] desktop[j]).0 != m[k].0 by {
            assert(xs[web.len() + j] == desktop[j]);
        }
    }
}

/// The outcome of writing several profiles (each file is written or
/// rejected on its own, so a rejected file does not stop the others):
/// `Ok` when every profile was written, else the first rejection's error.
pub fn combine_profile_writes<E>(writes: Vec<Result<(), E>>) -> (r: Result<(), E>)
    ensures
        r is Ok <==> forall|i: int| 0 <= i < writes@.len() ==> (#[trigger] writes@[i]) is Ok,
        r is Err ==> exists|i: int| first_error_at(writes@, i) && r->Err_0 == writes@[i]->Err_0,
{
    let ghost wv = writes@;
    let mut ws = writes;
    let mut i: usize = 0;
    while i < ws.len()
        invariant
            i <= ws@.len(),
            ws@ == wv,
            wv == writes@,
            forall|j: int| 0 <= j < i ==> (#[trigger] wv[j]) is Ok,
        decreases ws.len() - i,
    {
        if ws[i].is_err() {
            assert(first_error_at(wv, i as int));
            match ws.remove(i) {
                Err(e) => {
                    return Err(e);
                },
                Ok(_) => {
                    assert(false);
                    return Ok(());
                },
            }
        }
        i = i + 1;
    }
    Ok(())
}

// ---------------------------------------------------------------------------
// Upsert / remove / migration
// ---------------------------------------------------------------------------

/// Index of the first found entry of server `name`.
pub open spec fn first_named(found: Seq<(int, int, Seq<char>)>, name: Seq<char>) -> Option<int> {
    if exists|k: int| 0 <= k < found.len() && (#[trigger] found[k]).2 == name {
        Some(
            choose|k: int|
                0 <= k < found.len() && (#[trigger] found[k]).2 == name && forall|j: int|
                    0 <= j < k ==> (#[trigger] found[j]).2 != name,
        )
    } else {
        None
    }
}

/// `config` merged after a leading `serverName` (members of `config` insert
/// in order, replacing equal keys in place).
pub open spec fn insert_all(acc: Seq<(Seq<char>, JsonView)>, es: Seq<(Seq<char>, JsonView)>) -> Seq<(Seq<char>, JsonView)>
    decreases es.len(),
{
    if es.len() == 0 {
        acc
    } else {
        entries_insert(insert_all(acc, es.drop_last()), es.last().0, es.last().1)
    }
}

pub open spec fn full_config_v(name: Seq<char>, config: JsonView) -> JsonView {
    let start = seq![("serverName"@, JsonView::Str(name))];
    JsonView::Object(
        match config {
            JsonView::Object(es) => insert_all(start, es),
            _ => start,
        },
    )
}

/// The plugin item `{id, name: <client plugin>, config}`.
pub open spec fn plugin_json(id: Seq<char>, config: JsonView) -> JsonView {
    JsonView::Object(
        seq![
            ("id"@, JsonView::Str(id)),
            ("name"@, JsonView::Str(MCP_CLIENT_PLUGIN@)),
            ("config"@, config),
        ],
    )
}

/// `mcp-<name>`.
pub open spec fn default_plugin_id(name: Seq<char>) -> Seq<char> {
    "mcp-"@ + name
}

/// The patch entry `- insert: [plugin]` of a new server.
pub open spec fn insert_entry_json(name: Seq<char>, config: JsonView) -> JsonView {
    JsonView::Object(
        seq![("insert"@, JsonView::Array(seq![plugin_json(default_plugin_id(name), config)]))],
    )
}

pub open spec fn conversion_message(e: Seq<char>) -> Seq<char> {
    "Failed to convert JSON to YAML value: "@ + e
}

/// `entry` with item `i` of its `insert` list replaced by `y`.
pub open spec fn with_insert_item(entry: YamlView, i: int, y: YamlView) -> YamlView {
    with_items(entry, |xs: Seq<YamlView>| if 0 <= i < xs.len() { xs.update(i, y) } else { xs })
}

/// `entry` with item `i` of its `insert` list removed.
pub open spec fn without_insert_item(entry: YamlView, i: int) -> YamlView {
    with_items(entry, |xs: Seq<YamlView>| if 0 <= i < xs.len() { xs.remove(i) } else { xs })
}

/// The `id` of a plugin item when it is a string.
pub open spec fn plugin_id_v(item: YamlView) -> Option<Seq<char>> {
    match yget(item, "id"@) {
        Some(x) => yas_str(x),
        None => None,
    }
}

/// What `upsert_server` does: the server's plugin item is replaced
/// in place (keeping a string `id`, else `mcp-<name>`), or a new
/// `- insert:` entry is appended.
pub open spec fn spec_upsert(es: Seq<YamlView>, name: Seq<char>, config: JsonView) -> Result<Seq<YamlView>, Seq<char>> {
    let full = full_config_v(name, config);
    let found = mcp_client_entries(es);
    match first_named(found, name) {
        Some(k) => {
            let (p, i) = (found[k].0, found[k].1);
            let old_item = insert_items(es[p])->0[i];
            let id = match plugin_id_v(old_item) {
                Some(x) => x,
                None => default_plugin_id(name),
            };
            match to_yaml_v(plugin_json(id, full)) {
                Ok(y) => Ok(es.update(p, with_insert_item(es[p], i, y))),
                Err(e) => Err(conversion_message(e)),
            }
        },
        None => match to_yaml_v(insert_entry_json(name, full)) {
            Ok(y) => Ok(es.push(y)),
            Err(e) => Err(conversion_message(e)),
        },
    }
}

fn json_str(s: &str) -> (r: JsonValue)
    ensures
        r@ == JsonView::Str(s@),
{
    JsonValue::String(to_owned_string(s))
}

fn full_config(name: &str, config: &JsonValue) -> (r: JsonValue)
    ensures
        r@ == full_config_v(name@, config@),
{
    let mut es: Vec<(String, JsonValue)> = Vec::new();
    es.push((to_owned_string("serverName"), json_str(name)));
    let ghost start = seq![("serverName"@, JsonView::Str(name@))];
    assert(entries_view(es@) =~= start);
    match config {
        JsonValue::Object(src) => {
            proof {
                lemma_object_view(*src);
            }
            let ghost sv = entries_view(src@);
            let mut i: usize = 0;
            assert(sv.take(0) =~= Seq::<(Seq<char>, JsonView)>::empty());
            while i < src.len()
                invariant
                    i <= src@.len(),
                    sv == entries_view(src@),
                    entries_view(es@) == insert_all(start, sv.take(i as int)),
                decreases src.len() - i,
            {
                assert(sv.take(i + 1).drop_last() =~= sv.take(i as int));
                object_insert(&mut es, src[i].0.clone(), src[i].1.deep_copy());
                i = i + 1;
            }
            assert(sv.take(src@.len() as int) =~= sv);
        },
        _ => {},
    }
    proof {
        lemma_object_view(es);
    }
    JsonValue::Object(es)
}

fn plugin_value(id: String, config: JsonValue) -> (r: JsonValue)
    ensures
        r@ == plugin_json(id@, config@),
{
    let mut es: Vec<(String, JsonValue)> = Vec::new();
    es.push((to_owned_string("id"), JsonValue::String(id)));
    es.push((to_owned_string("name"), json_str(MCP_CLIENT_PLUGIN)));
    es.push((to_owned_string("config"), config));
    proof {
        lemma_object_view(es);
        assert(entries_view(es@) =~= plugin_json(id@, config@)->Object_0);
    }
    JsonValue::Object(es)
}

fn default_id(name: &str) -> (r: String)
    ensures
        r@ == default_plugin_id(name@),
{
    concat_str("mcp-", name)
}

fn conversion_error(e: String) -> (r: DshPatchError)
    ensures
        r matches DshPatchError::Config(m) && m@ == conversion_message(e@),
{
    DshPatchError::Config(concat_str("Failed to convert JSON to YAML value: ", e.as_str()))
}

/// The patch entry `- insert: [{id: mcp-<name>, name: <client plugin>, config}]`.
pub fn make_insert_entry(server_name: &str, config: JsonValue) -> (r: Result<YamlValue, DshPatchError>)
    ensures
        match r {
            Ok(y) => to_yaml_v(insert_entry_json(server_name@, config@)) == Ok::<YamlView, Seq<char>>(y@),
            Err(DshPatchError::Config(m)) => to_yaml_v(insert_entry_json(server_name@, config@)) matches Err(e) && m@ == conversion_message(e),
        },
{
    let plugin = plugin_value(default_id(server_name), config);
    let mut items: Vec<JsonValue> = Vec::new();
    let ghost pv = plugin@;
    items.push(plugin);
    let mut es: Vec<(String, JsonValue)> = Vec::new();
    proof {
        crate::json::lemma_array_view(items);
        assert(crate::json::items_view(items@) =~= seq![pv]);
    }
    es.push((to_owned_string("insert"), JsonValue::Array(items)));
    proof {
        lemma_object_view(es);
        assert(entries_view(es@) =~= insert_entry_json(server_name@, config@)->Object_0);
    }
    let entry = JsonValue::Object(es);
    match json_to_yaml(&entry) {
        Ok(y) => Ok(y),
        Err(e) => Err(conversion_error(e)),
    }
}

proof fn lemma_map_update(es: Seq<(YamlValue, YamlValue)>, k: int, x: (YamlValue, YamlValue))
    requires
        0 <= k < es.len(),
    ensures
        ymap_view(es.update(k, x)) == ymap_view(es).update(k, (yview(x.0), yview(x.1))),
{
    assert(ymap_view(es.update(k, x)) =~= ymap_view(es).update(k, (yview(x.0), yview(x.1))));
}

/// Replaces the value of entry `k` of a mapping by `f(value)` (the value is
/// moved out and back).
fn take_entry(es: &mut Vec<(YamlValue, YamlValue)>, k: usize) -> (r: (YamlValue, YamlValue))
    requires
        k < old(es)@.len(),
    ensures
        r == old(es)@[k as int],
        final(es)@ == old(es)@.remove(k as int),
{
    es.remove(k)
}

fn put_entry(es: &mut Vec<(YamlValue, YamlValue)>, k: usize, x: (YamlValue, YamlValue), Ghost(orig): Ghost<Seq<(YamlValue, YamlValue)>>)
    requires
        k < orig.len(),
        old(es)@ == orig.remove(k as int),
    ensures
        final(es)@ == orig.update(k as int, x),
        ymap_view(final(es)@) == ymap_view(orig).update(k as int, (yview(x.0), yview(x.1))),
{
    es.insert(k, x);
    assert(es@ =~= orig.update(k as int, x));
    proof {
        lemma_map_update(orig, k as int, x);
    }
}

#[verifier::opaque]
pub open spec fn with_items(entry: YamlView, f: spec_fn(Seq<YamlView>) -> Seq<YamlView>) -> YamlView {
    match entry {
        YamlView::Entries(es) => match ykey_index(es, "insert"@) {
            Some(k) => match es[k].1 {
                YamlView::Items(xs) => YamlView::Entries(es.update(k, (es[k].0, YamlView::Items(f(xs))))),
                _ => entry,
            },
            None => entry,
        },
        _ => entry,
    }
}

/// Applies an edit of the `insert` list of a patch entry.
#[verifier::spinoff_prover]
#[verifier::rlimit(40)]
fn edit_insert_list(entry: YamlValue, i: usize, y: Option<YamlValue>) -> (r: (YamlValue, bool))
    ensures
        y matches Some(v) ==> r.0@ == with_insert_item(entry@, i as int, v@),
        y is None ==> r.0@ == without_insert_item(entry@, i as int),
        r.1 == (y is None && (insert_items(entry@) matches Some(xs) && 0 <= i < xs.len() && xs.len() == 1)),
{
    reveal(with_items);
    reveal(insert_items);
    match entry {
        YamlValue::Mapping(mut es) => {
            proof {
                lemma_map_view(es);
            }
            let ghost orig = es@;
            match find_ykey(&es, "insert") {
                Some(k) => {
                    let (key, val) = take_entry(&mut es, k);
                    match val {
                        YamlValue::Sequence(mut items) => {
                            proof {
                                lemma_seq_view(items);
                            }
                            let ghost xs = yitems_view(items@);
                            let mut emptied = false;
                            if i < items.len() {
                                match y {
                                    Some(v) => {
                                        items.set(i, v);
                                        assert(yitems_view(items@) =~= xs.update(i as int, y->0@));
                                    },
                                    None => {
                                        emptied = items.len() == 1;
                                        items.remove(i);
                                        assert(yitems_view(items@) =~= xs.remove(i as int));
                                    },
                                }
                            }
                            proof {
                                lemma_seq_view(items);
                            }
                            put_entry(&mut es, k, (key, YamlValue::Sequence(items)), Ghost(orig));
                            proof {
                                lemma_map_view(es);
                            }
                            (YamlValue::Mapping(es), emptied)
                        },
                        other => {
                            put_entry(&mut es, k, (key, other), Ghost(orig));
                            proof {
                                lemma_map_view(es);
                                assert(ymap_view(es@) =~= ymap_view(orig));
                            }
                            (YamlValue::Mapping(es), false)
                        },
                    }
                },
                None => (YamlValue::Mapping(es), false),
            }
        },
        other => (other, false),
    }
}

fn item_id(entries: &Vec<YamlValue>, p: usize, i: usize) -> (r: Option<String>)
    requires
        p < entries@.len(),
        insert_items(entries@[p as int]@) is Some,
        i < insert_items(entries@[p as int]@)->0.len(),
    ensures
        match r {
            Some(x) => plugin_id_v(insert_items(entries@[p as int]@)->0[i as int]) == Some(x@),
            None => plugin_id_v(insert_items(entries@[p as int]@)->0[i as int]) is None,
        },
{
    reveal(insert_items);
    match entries[p].get("insert") {
        Some(YamlValue::Sequence(items)) => {
            proof {
                lemma_seq_view(*items);
            }
            match items[i].get("id") {
                Some(x) => match x.as_str() {
                    Some(s) => Some(to_owned_string(s)),
                    None => None,
                },
                None => None,
            }
        },
        _ => {
            assert(false);
            None
        },
    }
}

fn first_named_exec(found: &Vec<(usize, usize, String)>, name: &str) -> (r: Option<usize>)
    ensures
        match r {
            Some(k) => first_named(found_views(found@), name@) == Some(k as int) && k < found@.len(),
            None => first_named(found_views(found@), name@) is None,
        },
{
    let ghost fv = found_views(found@);
    let mut k: usize = 0;
    while k < found.len()
        invariant
            k <= found@.len(),
            fv == found_views(found@),
            forall|j: int| 0 <= j < k ==> (#[trigger] fv[j]).2 != name@,
        decreases found.len() - k,
    {
        if str_eq(found[k].2.as_str(), name) {
            let ghost c = first_named(fv, name@);
            assert(fv[k as int].2 == name@);
            assert(c == Some(k as int)) by {
                let w = c.unwrap();
                if w < k {
                    assert(fv[w].2 != name@);
                } else if w > k {
                    assert(fv[k as int].2 == name@);
                }
            }
            return Some(k);
        }
        assert(fv[k as int].2 != name@);
        k = k + 1;
    }
    None
}

/// Writes server `name` into the patch entries (see `spec_upsert`).
#[verifier::spinoff_prover]
#[verifier::rlimit(80)]
pub fn upsert_server(entries: &mut Vec<YamlValue>, name: &str, config: &JsonValue) -> (r: Result<(), DshPatchError>)
    ensures
        match spec_upsert(yitems_view(old(entries)@), name@, config@) {
            Ok(es) => r is Ok && yitems_view(final(entries)@) == es,
            Err(m) => r matches Err(DshPatchError::Config(x)) && x@ == m && final(entries)@ == old(entries)@,
        },
        config@ is Object && json_plain(config@) && entries_get(config@->Object_0, "serverName"@) is None
            ==> r is Ok,
{
    let ghost ev = yitems_view(entries@);
    proof {
        if config@ is Object && json_plain(config@) && entries_get(config@->Object_0, "serverName"@) is None {
            law_upsert_then_get(ev, name@, config@);
        }
    }
    let full = full_config(name, config);
    let found = find_mcp_client_entries(entries);
    match first_named_exec(&found, name) {
        Some(k) => {
            let p = found[k].0;
            let i = found[k].1;
            proof {
                lemma_mcp_client_entries(ev, k as int);
                assert(found_views(found@)[k as int] == (p as int, i as int, found@[k as int].2@));
                assert(ev[p as int] == entries@[p as int]@);
            }
            let id = match item_id(entries, p, i) {
                Some(x) => x,
                None => default_id(name),
            };
            let plugin = plugin_value(id, full);
            let y = match json_to_yaml(&plugin) {
                Ok(y) => y,
                Err(e) => return Err(conversion_error(e)),
            };
            let entry = entries.remove(p);
            let (updated, _) = edit_insert_list(entry, i, Some(y));
            entries.insert(p, updated);
            assert(yitems_view(entries@) =~= ev.update(p as int, with_insert_item(ev[p as int], i as int, y@)));
            Ok(())
        },
        None => {
            match make_insert_entry(name, full) {
                Ok(y) => {
                    entries.push(y);
                    assert(yitems_view(entries@) =~= ev.push(y@));
                    Ok(())
                },
                Err(e) => Err(e),
            }
        },
    }
}

/// The found entries of server `name`, as (patch entry, item).
pub open spec fn named_targets(found: Seq<(int, int, Seq<char>)>, name: Seq<char>) -> Seq<(int, int)>
    decreases found.len(),
{
    if found.len() == 0 {
        Seq::empty()
    } else {
        let prev = named_targets(found.drop_last(), name);
        if found.last().2 == name {
            prev.push((found.last().0, found.last().1))
        } else {
            prev
        }
    }
}

/// Removes item `t.1` of the `insert` of entry `t.0`, and the entry itself
/// when its `insert` list becomes empty.
pub open spec fn remove_target(es: Seq<YamlView>, t: (int, int)) -> Seq<YamlView> {
    if 0 <= t.0 < es.len() {
        let e2 = without_insert_item(es[t.0], t.1);
        if insert_items(es[t.0]) matches Some(xs) && 0 <= t.1 < xs.len() && xs.len() == 1 {
            es.remove(t.0)
        } else {
            es.update(t.0, e2)
        }
    } else {
        es
    }
}

/// Applies the removals last first, so earlier positions stay valid.
pub open spec fn remove_targets(es: Seq<YamlView>, ts: Seq<(int, int)>) -> Seq<YamlView>
    decreases ts.len(),
{
    if ts.len() == 0 {
        es
    } else {
        remove_targets(remove_target(es, ts.last()), ts.drop_last())
    }
}

/// What `remove_server` leaves: every plugin item of server `name`
/// removed (other items and entries kept), emptied `insert` entries dropped.
pub open spec fn spec_remove(es: Seq<YamlView>, name: Seq<char>) -> Seq<YamlView> {
    remove_targets(es, named_targets(mcp_client_entries(es), name))
}

/// Removes server `name` from the patch entries (see `spec_remove`); tells
/// whether anything was found (nothing is written back otherwise).
#[verifier::spinoff_prover]
#[verifier::rlimit(80)]
pub fn remove_server(entries: &mut Vec<YamlValue>, name: &str) -> (r: bool)
    ensures
        r == (named_targets(mcp_client_entries(yitems_view(old(entries)@)), name@).len() > 0),
        yitems_view(final(entries)@) == spec_remove(yitems_view(old(entries)@), name@),
{
    let ghost ev = yitems_view(entries@);
    let found = find_mcp_client_entries(entries);
    let ghost fv = found_views(found@);
    let mut targets: Vec<(usize, usize)> = Vec::new();
    let mut k: usize = 0;
    assert(fv.take(0) =~= Seq::<(int, int, Seq<char>)>::empty());
    while k < found.len()
        invariant
            k <= found@.len(),
            fv == found_views(found@),
            targets@.map_values(|t: (usize, usize)| (t.0 as int, t.1 as int)) == named_targets(fv.take(k as int), name@),
        decreases found.len() - k,
    {
        assert(fv.take(k + 1).drop_last() =~= fv.take(k as int));
        let ghost prev = targets@.map_values(|t: (usize, usize)| (t.0 as int, t.1 as int));
        if str_eq(found[k].2.as_str(), name) {
            targets.push((found[k].0, found[k].1));
            assert(targets@.map_values(|t: (usize, usize)| (t.0 as int, t.1 as int)) =~= prev.push((found@[k as int].0 as int, found@[k as int].1 as int)));
        }
        k = k + 1;
    }
    assert(fv.take(found@.len() as int) =~= fv);
    let ghost tv = targets@.map_values(|t: (usize, usize)| (t.0 as int, t.1 as int));
    if targets.len() == 0 {
        assert(spec_remove(ev, name@) == ev);
        return false;
    }
    let mut n = targets.len();
    assert(tv.take(n as int) =~= tv);
    while n > 0
        invariant
            n <= targets@.len(),
            tv == targets@.map_values(|t: (usize, usize)| (t.0 as int, t.1 as int)),
            spec_remove(ev, name@) == remove_targets(yitems_view(entries@), tv.take(n as int)),
        decreases n,
    {
        let p = targets[n - 1].0;
        let i = targets[n - 1].1;
        let ghost cur = yitems_view(entries@);
        assert(tv.take(n as int).drop_last() =~= tv.take(n - 1));
        assert(tv.take(n as int).last() == (p as int, i as int));
        if p < entries.len() {
            let entry = entries.remove(p);
            let (updated, emptied) = edit_insert_list(entry, i, None);

            if emptied {
                assert(yitems_view(entries@) =~= cur.remove(p as int));
            } else {
                entries.insert(p, updated);
                assert(yitems_view(entries@) =~= cur.update(p as int, updated@));
            }
        }
        n = n - 1;
    }
    true
}

// ---------------------------------------------------------------------------
// The legacy `mcp.json` and the patch file as a whole
// ---------------------------------------------------------------------------

/// The members of a legacy server that carry over, in this order.
pub open spec fn legacy_keys() -> Seq<Seq<char>> {
    seq!["transport"@, "command"@, "args"@, "env"@, "cwd"@, "url"@, "headers"@]
}

/// `copy_if_present` of each key of `keys`, in order.
pub open spec fn copy_keys(acc: Seq<(Seq<char>, JsonView)>, item: JsonView, keys: Seq<Seq<char>>) -> Seq<(Seq<char>, JsonView)>
    decreases keys.len(),
{
    if keys.len() == 0 {
        acc
    } else {
        let prev = copy_keys(acc, item, keys.drop_last());
        let k = keys.last();
        match spec_get(item, k) {
            Some(v) => if v is Null {
                prev
            } else {
                entries_insert(prev, k, v)
            },
            None => prev,
        }
    }
}

/// A legacy server entry as (name, plugin config): skipped without a string
/// `name` or with `enabled: false`; the config is `serverName` followed by
/// the legacy keys that are present and not null.
pub open spec fn legacy_server(item: JsonView) -> Option<(Seq<char>, JsonView)> {
    match spec_get_str(item, "name"@) {
        None => None,
        Some(name) => match spec_get(item, "enabled"@) {
            Some(x) if spec_as_bool(x) == Some(false) => None,
            _ => Some(
                (
                    name,
                    JsonView::Object(
                        copy_keys(seq![("serverName"@, JsonView::Str(name))], item, legacy_keys()),
                    ),
                ),
            ),
        },
    }
}

/// The patch entries made from the legacy servers, in order (a server whose
/// entry cannot be converted is skipped).
pub open spec fn migrated_entries(items: Seq<JsonView>) -> Seq<YamlView>
    decreases items.len(),
{
    if items.len() == 0 {
        Seq::empty()
    } else {
        let prev = migrated_entries(items.drop_last());
        match legacy_server(items.last()) {
            Some((name, config)) => match to_yaml_v(insert_entry_json(name, config)) {
                Ok(y) => prev.push(y),
                Err(_) => prev,
            },
            None => prev,
        }
    }
}

/// The `servers` array of a legacy `mcp.json`.
pub open spec fn legacy_servers(legacy: JsonView) -> Option<Seq<JsonView>> {
    match spec_get(legacy, "servers"@) {
        Some(JsonView::Array(xs)) => Some(xs),
        _ => None,
    }
}

/// The legacy file is migrated only while the patch has no MCP client entry.
pub fn needs_legacy_migration(entries: &Vec<YamlValue>) -> (r: bool)
    ensures
        r == (mcp_client_entries(yitems_view(entries@)).len() == 0),
{
    find_mcp_client_entries(entries).len() == 0
}

fn legacy_config(item: &JsonValue, name: &str) -> (r: JsonValue)
    ensures
        r@ == JsonView::Object(copy_keys(seq![("serverName"@, JsonView::Str(name@))], item@, legacy_keys())),
{
    let mut config: Vec<(String, JsonValue)> = Vec::new();
    config.push((to_owned_string("serverName"), json_str(name)));
    let ghost start = seq![("serverName"@, JsonView::Str(name@))];
    assert(entries_view(config@) =~= start);
    let keys: [&str; 7] = ["transport", "command", "args", "env", "cwd", "url", "headers"];
    proof {
        assert(legacy_keys().take(0) =~= Seq::<Seq<char>>::empty());
    }
    let mut j: usize = 0;
    while j < 7
        invariant
            j <= 7,
            keys@.map_values(|k: &str| k@) == legacy_keys(),
            entries_view(config@) == copy_keys(start, item@, legacy_keys().take(j as int)),
        decreases 7 - j,
    {
        assert(legacy_keys().take(j + 1).drop_last() =~= legacy_keys().take(j as int));
        assert(keys@[j as int]@ == keys@.map_values(|k: &str| k@)[j as int]);
        copy_if_present(&mut config, item, keys[j]);
        j = j + 1;
    }
    assert(legacy_keys().take(7) =~= legacy_keys());
    proof {
        lemma_object_view(config);
    }
    JsonValue::Object(config)
}

fn legacy_server_exec(item: &JsonValue) -> (r: Option<(String, JsonValue)>)
    ensures
        match r {
            Some((n, c)) => legacy_server(item@) == Some((n@, c@)),
            None => legacy_server(item@) is None,
        },
{
    reveal(legacy_server);
    let name = match item.get_str("name") {
        Some(n) => n,
        None => return None,
    };
    match item.get("enabled") {
        Some(x) => match x.as_bool() {
            Some(false) => return None,
            _ => {},
        },
        None => {},
    }
    let config = legacy_config(item, name.as_str());
    Some((name, config))
}

proof fn lemma_migrated_step(xs: Seq<JsonView>, i: int)
    requires
        0 <= i < xs.len(),
    ensures
        migrated_entries(xs.take(i + 1)) == match legacy_server(xs[i]) {
            Some((name, config)) => match to_yaml_v(insert_entry_json(name, config)) {
                Ok(y) => migrated_entries(xs.take(i)).push(y),
                Err(_) => migrated_entries(xs.take(i)),
            },
            None => migrated_entries(xs.take(i)),
        },
{
    assert(xs.take(i + 1).drop_last() =~= xs.take(i));
    assert(xs.take(i + 1).last() == xs[i]);
}

/// Appends the entries made from a legacy `mcp.json` (see
/// `migrated_entries`). `None` when it has no `servers` array: nothing is
/// migrated and the legacy file stays where it is; otherwise the number of
/// servers migrated.
#[verifier::spinoff_prover]
#[verifier::rlimit(100)]
pub fn migrate_legacy_servers(entries: &mut Vec<YamlValue>, legacy: &JsonValue) -> (r: Option<usize>)
    ensures
        match legacy_servers(legacy@) {
            None => r is None && final(entries)@ == old(entries)@,
            Some(xs) => r == Some((yitems_view(final(entries)@).len() - yitems_view(old(entries)@).len()) as usize)
                && yitems_view(final(entries)@) == yitems_view(old(entries)@) + migrated_entries(xs),
        },
{
    let items = match legacy.get("servers") {
        Some(JsonValue::Array(items)) => items,
        _ => return None,
    };
    proof {
        crate::json::lemma_array_view(*items);
    }
    let ghost xs = crate::json::items_view(items@);
    let ghost start = yitems_view(entries@);
    let mut migrated: usize = 0;
    let mut i: usize = 0;
    assert(xs.take(0) =~= Seq::<JsonView>::empty());
    assert(start + migrated_entries(xs.take(0)) =~= start);
    while i < items.len()
        invariant
            i <= items@.len(),
            xs == crate::json::items_view(items@),
            yitems_view(entries@) == start + migrated_entries(xs.take(i as int)),
            migrated == migrated_entries(xs.take(i as int)).len(),
            migrated <= i,
        decreases items.len() - i,
    {
        proof {
            lemma_migrated_step(xs, i as int);
        }
        let ghost before = yitems_view(entries@);
        match legacy_server_exec(&items[i]) {
            Some((name, config)) => match make_insert_entry(name.as_str(), config) {
                Ok(y) => {
                    entries.push(y);
                    assert(yitems_view(entries@) =~= before.push(y@));
                    migrated = migrated + 1;
                },
                Err(_) => {},
            },
            None => {},
        }
        i = i + 1;
    }
    assert(xs.take(items@.len() as int) =~= xs);
    Some(migrated)
}

/// The patch file: its entries and the header comment block kept on write.
#[derive(Debug)]
pub struct PatchFile {
    pub entries: Vec<YamlValue>,
    pub header: String,
}

/// The node kind named in errors (`serde_yaml::Value` variants).
pub open spec fn yaml_kind_v(v: YamlView) -> Seq<char> {
    match v {
        YamlView::Null => "null"@,
        YamlView::Bool(_) => "bool"@,
        YamlView::PosInt(_) | YamlView::NegInt(_) | YamlView::Float(_) => "number"@,
        YamlView::Str(_) => "string"@,
        YamlView::Items(_) => "sequence"@,
        YamlView::Entries(_) => "mapping"@,
        YamlView::Tagged(_, _) => "tagged"@,
    }
}

pub fn yaml_kind(v: &YamlValue) -> (r: &'static str)
    ensures
        r@ == yaml_kind_v(v@),
{
    match v {
        YamlValue::Null => "null",
        YamlValue::Bool(_) => "bool",
        YamlValue::Number(_) => "number",
        YamlValue::String(_) => "string",
        YamlValue::Sequence(_) => "sequence",
        YamlValue::Mapping(_) => "mapping",
        YamlValue::Tagged(_, _) => "tagged",
    }
}

pub open spec fn js_tag_message(path: Seq<char>) -> Seq<char> {
    "DSH cordis.patch.yml 含 !!js 等 YAML 扩展表达式，cc-switch 无法安全读写: "@ + path
}

pub open spec fn parse_failure_message(path: Seq<char>, e: Seq<char>) -> Seq<char> {
    "Failed to parse DSH cordis.patch.yml: "@ + path + ": "@ + e
}

pub open spec fn root_kind_message(path: Seq<char>, kind: Seq<char>) -> Seq<char> {
    "DSH cordis.patch.yml 根节点必须是数组: "@ + path + "（实际为 \""@ + kind + "\"）"@
}

/// Reads a patch file's text (`path` is how the file is named in errors):
/// `!!js` outside comments, text that is not YAML and a root that is
/// neither a sequence nor empty are errors; the header block is kept.
pub open spec fn spec_parse_patch(content: Seq<char>, path: Seq<char>) -> Result<(Seq<YamlView>, Seq<char>), Seq<char>> {
    if spec_contains_yaml_tag_extensions(content) {
        Err(js_tag_message(path))
    } else {
        match spec_yaml_parse(content) {
            Err(e) => Err(parse_failure_message(path, e)),
            Ok(YamlView::Items(xs)) => Ok((xs, spec_extract_header_comments(content))),
            Ok(YamlView::Null) => Ok((Seq::empty(), spec_extract_header_comments(content))),
            Ok(other) => Err(root_kind_message(path, yaml_kind_v(other))),
        }
    }
}

pub fn parse_patch_content(content: &str, path: &str) -> (r: Result<PatchFile, DshPatchError>)
    ensures
        match r {
            Ok(f) => spec_parse_patch(content@, path@) == Ok::<(Seq<YamlView>, Seq<char>), Seq<char>>(
                (yitems_view(f.entries@), f.header@),
            ),
            Err(DshPatchError::Config(m)) => spec_parse_patch(content@, path@) == Err::<(Seq<YamlView>, Seq<char>), Seq<char>>(m@),
        },
{
    if contains_yaml_tag_extensions(content) {
        return Err(DshPatchError::Config(concat_str("DSH cordis.patch.yml 含 !!js 等 YAML 扩展表达式，cc-switch 无法安全读写: ", path)));
    }
    let value = match yaml_parse(content) {
        Ok(v) => v,
        Err(e) => {
            let mut m = to_owned_string("Failed to parse DSH cordis.patch.yml: ");
            push_str(&mut m, path);
            push_str(&mut m, ": ");
            push_str(&mut m, e.as_str());
            return Err(DshPatchError::Config(m));
        },
    };
    let entries = match value {
        YamlValue::Sequence(items) => {
            proof {
                lemma_seq_view(items);
            }
            items
        },
        YamlValue::Null => {
            let e: Vec<YamlValue> = Vec::new();
            assert(yitems_view(e@) =~= Seq::<YamlView>::empty());
            e
        },
        other => {
            let mut m = to_owned_string("DSH cordis.patch.yml 根节点必须是数组: ");
            push_str(&mut m, path);
            push_str(&mut m, "（实际为 \"");
            push_str(&mut m, yaml_kind(&other));
            push_str(&mut m, "\"）");
            return Err(DshPatchError::Config(m));
        },
    };
    Ok(PatchFile { entries, header: extract_header_comments(content) })
}

/// A profile's patch file from its content: no file (`None`) is an empty
/// patch without header; a file is parsed as `parse_patch_content` does, and
/// a rejected one gives its error.
pub fn load_profile(content: Option<&str>, path: &str) -> (r: Result<PatchFile, DshPatchError>)
    ensures
        match content {
            None => r matches Ok(f) && f.entries@.len() == 0 && f.header@.len() == 0,
            Some(c) => match r {
                Ok(f) => spec_parse_patch(c@, path@) == Ok::<(Seq<YamlView>, Seq<char>), Seq<char>>(
                    (yitems_view(f.entries@), f.header@),
                ),
                Err(DshPatchError::Config(m)) => spec_parse_patch(c@, path@) == Err::<(Seq<YamlView>, Seq<char>), Seq<char>>(m@),
            },
        },
{
    match content {
        None => Ok(PatchFile { entries: Vec::new(), header: String::new() }),
        Some(c) => parse_patch_content(c, path),
    }
}

/// The text written back: the header block, then the entries in DSH style.
pub open spec fn spec_render_patch(entries: Seq<YamlView>, header: Seq<char>) -> Emitted {
    match spec_dump_patch_yaml(entries) {
        Ok(body) => Ok(header + body),
        Err(e) => Err(e),
    }
}

pub fn render_patch_file(file: &PatchFile) -> (r: Result<String, DshPatchError>)
    ensures
        emitted_as(r, spec_render_patch(yitems_view(file.entries@), file.header@)),
{
    let body = match dump_patch_yaml(&file.entries) {
        Ok(b) => b,
        Err(e) => return Err(e),
    };
    let mut out = String::new();
    if !file.header.as_str().is_empty() {
        push_str(&mut out, file.header.as_str());
    }
    push_str(&mut out, body.as_str());
    Ok(out)
}

// ---------------------------------------------------------------------------
// Reading back what was written
// ---------------------------------------------------------------------------

/// A server definition as read back from the patch matches the one written:
/// every member but `serverName` is the same, and `serverName` is gone.
pub open spec fn same_definition(read: JsonView, written: JsonView) -> bool {
    &&& read is Object
    &&& written is Object
    &&& entries_get(read->Object_0, "serverName"@) is None
    &&& forall|k: Seq<char>| k != "serverName"@ ==> #[trigger] entries_get(read->Object_0, k) == entries_get(written->Object_0, k)
}

/// Every member value of `es` is plain.
pub open spec fn plain_members(es: Seq<(Seq<char>, JsonView)>) -> bool {
    forall|i: int| 0 <= i < es.len() ==> json_plain(#[trigger] es[i].1)
}

proof fn lemma_insert_plain(es: Seq<(Seq<char>, JsonView)>, k: Seq<char>, v: JsonView)
    requires
        plain_members(es),
        json_plain(v),
    ensures
        plain_members(entries_insert(es, k, v)),
{
    crate::json::lemma_key_index(es, k);
    let r = entries_insert(es, k, v);
    assert forall|i: int| 0 <= i < r.len() implies json_plain(#[trigger] r[i].1) by {
        if i < es.len() && r[i] == es[i] {
        } else {
            assert(r[i].1 == v);
        }
    }
}

proof fn lemma_insert_all(acc: Seq<(Seq<char>, JsonView)>, es: Seq<(Seq<char>, JsonView)>, k: Seq<char>)
    requires
        keys_unique(es),
    ensures
        entries_get(insert_all(acc, es), k) == match entries_get(es, k) {
            Some(v) => Some(v),
            None => entries_get(acc, k),
        },
        keys_unique(acc) ==> keys_unique(insert_all(acc, es)),
        plain_members(acc) && plain_members(es) ==> plain_members(insert_all(acc, es)),
    decreases es.len(),
{
    if es.len() > 0 {
        let init = es.drop_last();
        let last = es.last();
        assert(keys_unique(init)) by {
            assert forall|i: int, j: int| 0 <= i < j < init.len() implies (#[trigger] init[i]).0 != (#[trigger] init[j]).0 by {
                assert(init[i] == es[i] && init[j] == es[j]);
            }
        }
        lemma_insert_all(acc, init, k);
        let prev = insert_all(acc, init);
        law_get_after_insert(prev, last.0, last.1, k);
        assert forall|i: int| 0 <= i < init.len() implies (#[trigger] init[i]).0 != last.0 by {
            assert(init[i] == es[i]);
            assert(es[es.len() - 1] == last);
        }
        lemma_key_index_none(init, last.0);
        assert(entries_insert(init, last.0, last.1) =~= es);
        law_get_after_insert(init, last.0, last.1, k);
        if plain_members(acc) && plain_members(es) {
            assert(plain_members(init)) by {
                assert forall|i: int| 0 <= i < init.len() implies json_plain(#[trigger] init[i].1) by {
                    assert(init[i] == es[i]);
                }
            }
            assert(json_plain(es[es.len() - 1].1));
            lemma_insert_plain(prev, last.0, last.1);
        }
    }
}

/// What `full_config_v` holds: `serverName` set to the server's name and
/// the definition's members as they are.
proof fn lemma_full_config(name: Seq<char>, config: JsonView)
    requires
        config is Object,
        json_plain(config),
        entries_get(config->Object_0, "serverName"@) is None,
    ensures
        json_plain(full_config_v(name, config)),
        entries_get(full_config_v(name, config)->Object_0, "serverName"@) == Some(JsonView::Str(name)),
        forall|k: Seq<char>| k != "serverName"@ ==> #[trigger] entries_get(full_config_v(name, config)->Object_0, k)
            == entries_get(config->Object_0, k),
{
    let es = config->Object_0;
    let start = seq![("serverName"@, JsonView::Str(name))];
    let full = insert_all(start, es);
    lemma_key_index_is(start, "serverName"@, 0);
    lemma_insert_all(start, es, "serverName"@);
    assert forall|k: Seq<char>| k != "serverName"@ implies #[trigger] entries_get(full, k) == entries_get(es, k) by {
        lemma_insert_all(start, es, k);
        lemma_key_index_none(start, k);
    }
    assert(keys_unique(start));
    assert(plain_members(start));
    assert(plain_members(es));
    lemma_insert_all(start, es, "serverName"@);
}

proof fn lemma_plugin_json_get(id: Seq<char>, config: JsonView)
    ensures
        entries_get(plugin_json(id, config)->Object_0, "name"@) == Some(JsonView::Str(MCP_CLIENT_PLUGIN@)),
        entries_get(plugin_json(id, config)->Object_0, "config"@) == Some(config),
        keys_unique(plugin_json(id, config)->Object_0),
{
    let es = plugin_json(id, config)->Object_0;
    reveal_strlit("id");
    reveal_strlit("name");
    reveal_strlit("config");
    assert("id"@.len() == 2 && "name"@.len() == 4 && "config"@.len() == 6);
    assert(es[0].0 != "name"@);
    lemma_key_index_is(es, "name"@, 1);
    assert(es[0].0 != "config"@ && es[1].0 != "config"@);
    lemma_key_index_is(es, "config"@, 2);
}

#[verifier::spinoff_prover]
#[verifier::rlimit(40)]
proof fn lemma_plugin_item_name(id: Seq<char>, name: Seq<char>, full: JsonView)
    requires
        full is Object,
        entries_get(full->Object_0, "serverName"@) == Some(JsonView::Str(name)),
    ensures
        plugin_server_name(yaml_image(plugin_json(id, full))) == Some(name),
        yget(yaml_image(plugin_json(id, full)), "config"@) == Some(yaml_image(full)),
{
    let pj = plugin_json(id, full);
    let item = yaml_image(pj);
    assert(yget(item, "name"@) == Some(YamlView::Str(MCP_CLIENT_PLUGIN@))) by {
        lemma_plugin_json_get(id, full);
        lemma_image_get(pj->Object_0, "name"@);
    }
    assert(yget(item, "config"@) == Some(yaml_image(full))) by {
        lemma_plugin_json_get(id, full);
        lemma_image_get(pj->Object_0, "config"@);
    }
    assert(yget(yaml_image(full), "serverName"@) == Some(YamlView::Str(name))) by {
        lemma_image_get(full->Object_0, "serverName"@);
    }
    reveal(plugin_server_name);
}

proof fn lemma_read_back(full: JsonView, config: JsonView)
    requires
        json_plain(full),
        full is Object,
        config is Object,
        forall|k: Seq<char>| k != "serverName"@ ==> #[trigger] entries_get(full->Object_0, k) == entries_get(config->Object_0, k),
    ensures
        to_json_v(yaml_image(full)) == Ok::<JsonView, Seq<char>>(full),
        tags_nonempty(yaml_image(full)),
        same_definition(JsonView::Object(entries_remove(full->Object_0, "serverName"@)), config),
{
    lemma_plain_image(full);
    lemma_plain_tags(yaml_image(full));
    let read = JsonView::Object(entries_remove(full->Object_0, "serverName"@));
    law_get_after_remove(full->Object_0, "serverName"@, "serverName"@);
    assert forall|k: Seq<char>| k != "serverName"@ implies #[trigger] entries_get(read->Object_0, k) == entries_get(config->Object_0, k) by {
        law_get_after_remove(full->Object_0, "serverName"@, k);
    }
}

/// The plugin item of a written server names the server, and its
/// definition reads back as written.
#[verifier::spinoff_prover]
#[verifier::rlimit(40)]
proof fn lemma_plugin_item(id: Seq<char>, name: Seq<char>, config: JsonView)
    requires
        config is Object,
        json_plain(config),
        entries_get(config->Object_0, "serverName"@) is None,
    ensures
        json_plain(plugin_json(id, full_config_v(name, config))),
        plugin_server_name(yaml_image(plugin_json(id, full_config_v(name, config)))) == Some(name),
        plugin_config_v(yaml_image(plugin_json(id, full_config_v(name, config)))) matches Some(read) && same_definition(read, config),
{
    let full = full_config_v(name, config);
    let pj = plugin_json(id, full);
    lemma_full_config(name, config);
    lemma_plugin_json_get(id, full);
    assert(json_plain(pj)) by {
        let es = pj->Object_0;
        assert(json_plain(es[0].1) && json_plain(es[1].1) && json_plain(es[2].1));
    }
    lemma_plugin_item_name(id, name, full);
    lemma_read_back(full, config);
}

proof fn lemma_found_contains(p: int, items: Seq<YamlView>, i: int, n: Seq<char>)
    requires
        0 <= i < items.len(),
        plugin_server_name(items[i]) == Some(n),
    ensures
        exists|k: int| 0 <= k < found_in_items(p, items).len() && #[trigger] found_in_items(p, items)[k] == (p, i, n),
    decreases items.len(),
{
    let init = items.drop_last();
    let prev = found_in_items(p, init);
    if i == items.len() - 1 {
        assert(found_in_items(p, items)[prev.len() as int] == (p, i, n));
    } else {
        assert(init[i] == items[i]);
        lemma_found_contains(p, init, i, n);
        let k = choose|k: int| 0 <= k < prev.len() && #[trigger] prev[k] == (p, i, n);
        assert(found_in_items(p, items)[k] == prev[k]);
    }
}

/// A plugin item of server `n` is among the found entries of the patch.
proof fn lemma_mce_contains(es: Seq<YamlView>, p: int, i: int, n: Seq<char>)
    requires
        0 <= p < es.len(),
        insert_items(es[p]) is Some,
        0 <= i < insert_items(es[p])->0.len(),
        plugin_server_name(insert_items(es[p])->0[i]) == Some(n),
    ensures
        exists|k: int| 0 <= k < mcp_client_entries(es).len() && #[trigger] mcp_client_entries(es)[k] == (p, i, n),
    decreases es.len(),
{
    let init = es.drop_last();
    let prev = mcp_client_entries(init);
    if p == es.len() - 1 {
        let xs = insert_items(es[p])->0;
        lemma_found_contains(p, xs, i, n);
        let k = choose|k: int| 0 <= k < found_in_items(p, xs).len() && #[trigger] found_in_items(p, xs)[k] == (p, i, n);
        assert(mcp_client_entries(es)[prev.len() + k] == (p, i, n));
    } else {
        assert(init[p] == es[p]);
        lemma_mce_contains(init, p, i, n);
        let k = choose|k: int| 0 <= k < prev.len() && #[trigger] prev[k] == (p, i, n);
        assert(mcp_client_entries(es)[k] == prev[k]);
    }
}

proof fn lemma_with_insert_item(entry: YamlView, i: int, y: YamlView)
    requires
        insert_items(entry) is Some,
        0 <= i < insert_items(entry)->0.len(),
    ensures
        insert_items(with_insert_item(entry, i, y)) == Some(insert_items(entry)->0.update(i, y)),
{
    reveal(insert_items);
    reveal(with_items);
    let es = entry->Entries_0;
    lemma_ykey_index(es, "insert"@);
    let k = ykey_index(es, "insert"@)->0;
    let xs = insert_items(entry)->0;
    let es2 = es.update(k, (es[k].0, YamlView::Items(xs.update(i, y))));
    assert(with_insert_item(entry, i, y) == YamlView::Entries(es2));
    lemma_ykey_index_same_keys(es2, es, "insert"@);
}

proof fn lemma_first_named(found: Seq<(int, int, Seq<char>)>, name: Seq<char>)
    ensures
        match first_named(found, name) {
            Some(k) => 0 <= k < found.len() && found[k].2 == name,
            None => true,
        },
{
    if exists|k: int| 0 <= k < found.len() && (#[trigger] found[k]).2 == name {
        let w = choose|k: int| 0 <= k < found.len() && (#[trigger] found[k]).2 == name;
        lemma_first_named_exists(found, name, w);
    }
}

proof fn lemma_first_named_exists(found: Seq<(int, int, Seq<char>)>, name: Seq<char>, w: int)
    requires
        0 <= w < found.len(),
        found[w].2 == name,
    ensures
        exists|k: int|
            0 <= k < found.len() && (#[trigger] found[k]).2 == name && forall|j: int|
                0 <= j < k ==> (#[trigger] found[j]).2 != name,
    decreases w,
{
    if exists|j: int| 0 <= j < w && (#[trigger] found[j]).2 == name {
        let j = choose|j: int| 0 <= j < w && (#[trigger] found[j]).2 == name;
        lemma_first_named_exists(found, name, j);
    }
}

proof fn lemma_new_insert_entry(name: Seq<char>, full: JsonView)
    requires
        json_plain(full),
    ensures
        json_plain(insert_entry_json(name, full)),
        insert_items(yaml_image(insert_entry_json(name, full))) == Some(seq![yaml_image(plugin_json(default_plugin_id(name), full))]),
{
    let pj = plugin_json(default_plugin_id(name), full);
    let ij = insert_entry_json(name, full);
    assert(json_plain(pj)) by {
        let es = pj->Object_0;
        lemma_plugin_json_get(default_plugin_id(name), full);
        assert(json_plain(es[0].1) && json_plain(es[1].1) && json_plain(es[2].1));
    }
    assert(json_plain(ij)) by {
        let es = ij->Object_0;
        assert(json_plain(es[0].1)) by {
            let xs = es[0].1->Array_0;
            assert(xs[0] == pj);
        }
    }
    reveal(insert_items);
    lemma_key_index_is(ij->Object_0, "insert"@, 0);
    lemma_image_get(ij->Object_0, "insert"@);
    assert(yaml_image(JsonView::Array(seq![pj]))->Items_0 =~= seq![yaml_image(pj)]);
}

/// Read after write on the patch file: after `upsert_server` of a server
/// definition (a JSON object without floats, with each key once, and
/// without a `serverName` of its own), the write succeeds and the servers
/// read back list `name` with that definition.
#[verifier::spinoff_prover]
#[verifier::rlimit(60)]
pub proof fn law_upsert_then_get(es: Seq<YamlView>, name: Seq<char>, config: JsonView)
    requires
        config is Object,
        json_plain(config),
        entries_get(config->Object_0, "serverName"@) is None,
    ensures
        spec_upsert(es, name, config) is Ok,
        exists|k: int|
            0 <= k < spec_servers(spec_upsert(es, name, config)->Ok_0).len() && #[trigger] spec_servers(
                spec_upsert(es, name, config)->Ok_0,
            )[k].0 == name && same_definition(spec_servers(spec_upsert(es, name, config)->Ok_0)[k].1, config),
{
    let full = full_config_v(name, config);
    let found = mcp_client_entries(es);
    lemma_full_config(name, config);
    lemma_first_named(found, name);
    match first_named(found, name) {
        Some(k) => {
            lemma_mcp_client_entries(es, k);
            let (p, i) = (found[k].0, found[k].1);
            let old_item = insert_items(es[p])->0[i];
            let id = match plugin_id_v(old_item) {
                Some(x) => x,
                None => default_plugin_id(name),
            };
            lemma_plugin_item(id, name, config);
            let y = yaml_image(plugin_json(id, full));
            assert(to_yaml_v(plugin_json(id, full)) == Ok::<YamlView, Seq<char>>(y));
            let es2 = es.update(p, with_insert_item(es[p], i, y));
            assert(spec_upsert(es, name, config) == Ok::<Seq<YamlView>, Seq<char>>(es2));
            lemma_with_insert_item(es[p], i, y);
            assert(insert_items(es2[p])->0[i] == y);
            lemma_mce_contains(es2, p, i, name);
            let k2 = choose|k2: int| 0 <= k2 < mcp_client_entries(es2).len() && #[trigger] mcp_client_entries(es2)[k2] == (p, i, name);
            let plugin = insert_items(es2[p])->0[i];
            assert(plugin == y);
            assert(spec_servers(es2)[k2].1 == plugin_config_v(y)->0);
            assert(same_definition(spec_servers(es2)[k2].1, config));
            assert(spec_servers(es2)[k2].0 == name);
            assert(spec_upsert(es, name, config)->Ok_0 == es2);
            assert(0 <= k2 < spec_servers(es2).len());
        },
        None => {
            let id = default_plugin_id(name);
            lemma_plugin_item(id, name, config);
            lemma_new_insert_entry(name, full);
            let y = yaml_image(insert_entry_json(name, full));
            assert(to_yaml_v(insert_entry_json(name, full)) == Ok::<YamlView, Seq<char>>(y));
            let es2 = es.push(y);
            assert(spec_upsert(es, name, config) == Ok::<Seq<YamlView>, Seq<char>>(es2));
            assert(es2[es.len() as int] == y);
            lemma_mce_contains(es2, es.len() as int, 0, name);
            let k2 = choose|k2: int| 0 <= k2 < mcp_client_entries(es2).len() && #[trigger] mcp_client_entries(es2)[k2] == (es.len() as int, 0int, name);
            let yp = yaml_image(plugin_json(id, full));
            assert(insert_items(es2[es.len() as int])->0[0] == yp);
            assert(spec_servers(es2)[k2].1 == plugin_config_v(yp)->0);
            assert(same_definition(spec_servers(es2)[k2].1, config));
            assert(spec_servers(es2)[k2].0 == name);
            assert(spec_upsert(es, name, config)->Ok_0 == es2);
            assert(0 <= k2 < spec_servers(es2).len());
        },
    }
}

/// Item `i` of the `insert` list of patch entry `p` is a plugin item of
/// server `name`.
pub open spec fn named_at(es: Seq<YamlView>, name: Seq<char>, p: int, i: int) -> bool {
    &&& 0 <= p < es.len()
    &&& insert_items(es[p]) is Some
    &&& 0 <= i < insert_items(es[p])->0.len()
    &&& plugin_server_name(insert_items(es[p])->0[i]) == Some(name)
}

pub open spec fn pos_lt(a: (int, int), b: (int, int)) -> bool {
    a.0 < b.0 || (a.0 == b.0 && a.1 < b.1)
}

pub open spec fn sorted_targets(ts: Seq<(int, int)>) -> bool {
    forall|a: int, b: int| 0 <= a < b < ts.len() ==> pos_lt(#[trigger] ts[a], #[trigger] ts[b])
}

/// Every plugin item of `name` in `es` is one of the targets.
pub open spec fn covered(es: Seq<YamlView>, name: Seq<char>, ts: Seq<(int, int)>) -> bool {
    forall|p: int, i: int| #[trigger] named_at(es, name, p, i) ==> ts.contains((p, i))
}

proof fn lemma_without_insert_item(entry: YamlView, i: int)
    ensures
        match insert_items(entry) {
            Some(xs) => insert_items(without_insert_item(entry, i)) == Some(
                if 0 <= i < xs.len() {
                    xs.remove(i)
                } else {
                    xs
                },
            ),
            None => insert_items(without_insert_item(entry, i)) is None,
        },
{
    reveal(insert_items);
    reveal(with_items);
    match entry {
        YamlView::Entries(es) => {
            lemma_ykey_index(es, "insert"@);
            match ykey_index(es, "insert"@) {
                Some(k) => match es[k].1 {
                    YamlView::Items(xs) => {
                        let ys = if 0 <= i < xs.len() {
                            xs.remove(i)
                        } else {
                            xs
                        };
                        let es2 = es.update(k, (es[k].0, YamlView::Items(ys)));
                        assert(without_insert_item(entry, i) == YamlView::Entries(es2));
                        lemma_ykey_index_same_keys(es2, es, "insert"@);
                    },
                    _ => {},
                },
                None => {},
            }
        },
        _ => {},
    }
}

proof fn lemma_sorted_last(ts: Seq<(int, int)>, a: int)
    requires
        sorted_targets(ts),
        0 <= a < ts.len() - 1,
    ensures
        pos_lt(ts[a], ts.last()),
{
    assert(pos_lt(ts[a], ts[ts.len() - 1]));
}

proof fn lemma_in_drop_last(ts: Seq<(int, int)>, x: (int, int))
    requires
        ts.len() > 0,
        ts.contains(x),
        x != ts.last(),
    ensures
        ts.drop_last().contains(x),
{
    let a = choose|a: int| 0 <= a < ts.len() && ts[a] == x;
    assert(ts.drop_last()[a] == x);
}

proof fn lemma_not_after_last(ts: Seq<(int, int)>, x: (int, int))
    requires
        sorted_targets(ts),
        ts.len() > 0,
        ts.contains(x),
    ensures
        !pos_lt(ts.last(), x),
{
    let a = choose|a: int| 0 <= a < ts.len() && ts[a] == x;
    if a < ts.len() - 1 {
        lemma_sorted_last(ts, a);
    }
}

/// Removing the last (largest) target keeps every other plugin item of
/// `name` among the remaining targets.
#[verifier::spinoff_prover]
#[verifier::rlimit(60)]
proof fn lemma_remove_step(cur: Seq<YamlView>, name: Seq<char>, ts: Seq<(int, int)>)
    requires
        ts.len() > 0,
        sorted_targets(ts),
        covered(cur, name, ts),
    ensures
        sorted_targets(ts.drop_last()),
        covered(remove_target(cur, ts.last()), name, ts.drop_last()),
{
    let t = ts.last();
    let (p, i) = (t.0, t.1);
    let nw = remove_target(cur, t);
    let rest = ts.drop_last();
    assert forall|a: int, b: int| 0 <= a < b < rest.len() implies pos_lt(#[trigger] rest[a], #[trigger] rest[b]) by {
        assert(rest[a] == ts[a] && rest[b] == ts[b]);
    }
    assert forall|q: int, j: int| #[trigger] named_at(nw, name, q, j) implies rest.contains((q, j)) by {
        if !(0 <= p < cur.len()) {
            assert(named_at(cur, name, q, j));
            lemma_in_drop_last(ts, (q, j));
        } else if insert_items(cur[p]) matches Some(xs) && 0 <= i < xs.len() && xs.len() == 1 {
            if q < p {
                assert(nw[q] == cur[q]);
                assert(named_at(cur, name, q, j));
                assert(pos_lt((q, j), t));
                lemma_in_drop_last(ts, (q, j));
            } else {
                assert(nw[q] == cur[q + 1]);
                assert(named_at(cur, name, q + 1, j));
                lemma_not_after_last(ts, (q + 1, j));
            }
        } else {
            lemma_without_insert_item(cur[p], i);
            if q != p {
                assert(nw[q] == cur[q]);
                assert(named_at(cur, name, q, j));
                lemma_in_drop_last(ts, (q, j));
            } else {
                let xs = insert_items(cur[p])->0;
                if 0 <= i < xs.len() {
                    let ys = xs.remove(i);
                    assert(insert_items(nw[p]) == Some(ys));
                    if j < i {
                        assert(ys[j] == xs[j]);
                        assert(named_at(cur, name, q, j));
                        lemma_in_drop_last(ts, (q, j));
                    } else {
                        assert(ys[j] == xs[j + 1]);
                        assert(named_at(cur, name, q, j + 1));
                        lemma_not_after_last(ts, (q, j + 1));
                    }
                } else {
                    assert(named_at(cur, name, q, j));
                    lemma_in_drop_last(ts, (q, j));
                }
            }
        }
    }
}

proof fn lemma_remove_targets(cur: Seq<YamlView>, name: Seq<char>, ts: Seq<(int, int)>)
    requires
        sorted_targets(ts),
        covered(cur, name, ts),
    ensures
        forall|p: int, i: int| !#[trigger] named_at(remove_targets(cur, ts), name, p, i),
    decreases ts.len(),
{
    if ts.len() == 0 {
        assert(remove_targets(cur, ts) == cur);
        assert forall|p: int, i: int| !#[trigger] named_at(cur, name, p, i) by {
            if named_at(cur, name, p, i) {
                assert(ts.contains((p, i)));
                let a = choose|a: int| 0 <= a < ts.len() && ts[a] == (p, i);
                assert(false);
            }
        }
    } else {
        lemma_remove_step(cur, name, ts);
        let next = remove_target(cur, ts.last());
        lemma_remove_targets(next, name, ts.drop_last());
        assert(remove_targets(cur, ts) == remove_targets(next, ts.drop_last()));
        assert forall|p: int, i: int| !#[trigger] named_at(remove_targets(cur, ts), name, p, i) by {
            assert(!named_at(remove_targets(next, ts.drop_last()), name, p, i));
        }
    }
}

proof fn lemma_named_targets_contains(found: Seq<(int, int, Seq<char>)>, name: Seq<char>, k: int)
    requires
        0 <= k < found.len(),
        found[k].2 == name,
    ensures
        named_targets(found, name).contains((found[k].0, found[k].1)),
    decreases found.len(),
{
    let init = found.drop_last();
    let prev = named_targets(init, name);
    if k == found.len() - 1 {
        assert(named_targets(found, name).last() == (found[k].0, found[k].1));
    } else {
        assert(init[k] == found[k]);
        lemma_named_targets_contains(init, name, k);
        let a = choose|a: int| 0 <= a < prev.len() && prev[a] == (found[k].0, found[k].1);
        assert(named_targets(found, name)[a] == prev[a]);
    }
}

/// Each target is the position of a found entry of `name`.
proof fn lemma_named_targets_from(found: Seq<(int, int, Seq<char>)>, name: Seq<char>, a: int)
    requires
        0 <= a < named_targets(found, name).len(),
    ensures
        exists|k: int| 0 <= k < found.len() && #[trigger] found[k].2 == name && named_targets(found, name)[a] == (found[k].0, found[k].1),
    decreases found.len(),
{
    let init = found.drop_last();
    let prev = named_targets(init, name);
    if a < prev.len() {
        lemma_named_targets_from(init, name, a);
        let k = choose|k: int| 0 <= k < init.len() && #[trigger] init[k].2 == name && prev[a] == (init[k].0, init[k].1);
        assert(found[k] == init[k]);
    } else {
        assert(found[found.len() - 1].2 == name);
    }
}

pub open spec fn found_sorted(found: Seq<(int, int, Seq<char>)>) -> bool {
    forall|a: int, b: int| 0 <= a < b < found.len() ==> pos_lt((#[trigger] found[a].0, found[a].1), (#[trigger] found[b].0, found[b].1))
}

proof fn lemma_found_sorted(p: int, items: Seq<YamlView>)
    ensures
        found_sorted(found_in_items(p, items)),
    decreases items.len(),
{
    if items.len() > 0 {
        let init = items.drop_last();
        let prev = found_in_items(p, init);
        lemma_found_sorted(p, init);
        let f = found_in_items(p, items);
        assert forall|a: int, b: int| 0 <= a < b < f.len() implies pos_lt((#[trigger] f[a].0, f[a].1), (#[trigger] f[b].0, f[b].1)) by {
            assert(f[a] == prev[a]);
            lemma_found_in_items(p, init, a);
            if b < prev.len() {
                assert(f[b] == prev[b]);
            } else {
                assert(f[b] == (p, items.len() - 1, plugin_server_name(items.last())->0));
            }
        }
    }
}

proof fn lemma_mce_sorted(es: Seq<YamlView>)
    ensures
        found_sorted(mcp_client_entries(es)),
    decreases es.len(),
{
    if es.len() > 0 {
        let init = es.drop_last();
        let prev = mcp_client_entries(init);
        lemma_mce_sorted(init);
        let tail = match insert_items(es.last()) {
            Some(items) => found_in_items(es.len() - 1, items),
            None => Seq::empty(),
        };
        match insert_items(es.last()) {
            Some(items) => lemma_found_sorted(es.len() - 1, items),
            None => {},
        }
        let f = mcp_client_entries(es);
        assert(f == prev + tail);
        assert forall|a: int, b: int| 0 <= a < b < f.len() implies pos_lt((#[trigger] f[a].0, f[a].1), (#[trigger] f[b].0, f[b].1)) by {
            if b < prev.len() {
                assert(f[a] == prev[a] && f[b] == prev[b]);
            } else if a < prev.len() {
                assert(f[a] == prev[a]);
                lemma_mcp_client_entries(init, a);
                let items = insert_items(es.last())->0;
                assert(f[b] == tail[b - prev.len()]);
                lemma_found_in_items(es.len() - 1, items, b - prev.len());
            } else {
                assert(f[a] == tail[a - prev.len()] && f[b] == tail[b - prev.len()]);
            }
        }
    }
}

proof fn lemma_targets_sorted(found: Seq<(int, int, Seq<char>)>, name: Seq<char>)
    requires
        found_sorted(found),
    ensures
        sorted_targets(named_targets(found, name)),
    decreases found.len(),
{
    if found.len() > 0 {
        let init = found.drop_last();
        assert(found_sorted(init)) by {
            assert forall|a: int, b: int| 0 <= a < b < init.len() implies pos_lt((#[trigger] init[a].0, init[a].1), (#[trigger] init[b].0, init[b].1)) by {
                assert(init[a] == found[a] && init[b] == found[b]);
            }
        }
        lemma_targets_sorted(init, name);
        let prev = named_targets(init, name);
        let ts = named_targets(found, name);
        assert forall|a: int, b: int| 0 <= a < b < ts.len() implies pos_lt(#[trigger] ts[a], #[trigger] ts[b]) by {
            if b < prev.len() {
                assert(ts[a] == prev[a] && ts[b] == prev[b]);
            } else {
                assert(ts[a] == prev[a]);
                lemma_named_targets_from(init, name, a);
                let k = choose|k: int| 0 <= k < init.len() && #[trigger] init[k].2 == name && prev[a] == (init[k].0, init[k].1);
                assert(found[k] == init[k]);
                assert(ts[b] == (found.last().0, found.last().1));
            }
        }
    }
}

/// What a removal leaves: no server `name` is read back from the patch.
pub proof fn law_remove_then_get(es: Seq<YamlView>, name: Seq<char>)
    ensures
        forall|k: int| 0 <= k < spec_servers(spec_remove(es, name)).len() ==> #[trigger] spec_servers(spec_remove(es, name))[k].0 != name,
{
    let found = mcp_client_entries(es);
    let ts = named_targets(found, name);
    lemma_mce_sorted(es);
    lemma_targets_sorted(found, name);
    assert forall|p: int, i: int| #[trigger] named_at(es, name, p, i) implies ts.contains((p, i)) by {
        lemma_mce_contains(es, p, i, name);
        let k = choose|k: int| 0 <= k < found.len() && #[trigger] found[k] == (p, i, name);
        lemma_named_targets_contains(found, name, k);
    }
    lemma_remove_targets(es, name, ts);
    let after = spec_remove(es, name);
    assert forall|k: int| 0 <= k < spec_servers(after).len() implies #[trigger] spec_servers(after)[k].0 != name by {
        lemma_mcp_client_entries(after, k);
        let f = mcp_client_entries(after)[k];
        if f.2 == name {
            assert(named_at(after, name, f.0, f.1));
        }
    }
}

/// An upsert touches only the entry holding the server: every patch entry
/// without a plugin item of `name` stays as it was, and a server already in
/// the patch is replaced in place rather than appended.
pub proof fn law_upsert_keeps_other_entries(es: Seq<YamlView>, name: Seq<char>, config: JsonView, j: int)
    requires
        spec_upsert(es, name, config) is Ok,
        0 <= j < es.len(),
    ensures
        spec_upsert(es, name, config)->Ok_0.len() >= es.len(),
        (forall|i: int| !#[trigger] named_at(es, name, j, i)) ==> spec_upsert(es, name, config)->Ok_0[j] == es[j],
        (exists|p: int, i: int| #[trigger] named_at(es, name, p, i)) ==> spec_upsert(es, name, config)->Ok_0.len() == es.len(),
{
    let found = mcp_client_entries(es);
    lemma_first_named(found, name);
    match first_named(found, name) {
        Some(k) => {
            lemma_mcp_client_entries(es, k);
            assert(named_at(es, name, found[k].0, found[k].1));
        },
        None => {
            if exists|p: int, i: int| #[trigger] named_at(es, name, p, i) {
                let (p, i) = choose|p: int, i: int| #[trigger] named_at(es, name, p, i);
                lemma_mce_contains(es, p, i, name);
                let k = choose|k: int| 0 <= k < found.len() && #[trigger] found[k] == (p, i, name);
                assert(found[k].2 == name);
                assert(false);
            }
        },
    }
}

/// Every target is still a plugin item of `name`.
pub open spec fn exact_targets(es: Seq<YamlView>, name: Seq<char>, ts: Seq<(int, int)>) -> bool {
    forall|a: int| 0 <= a < ts.len() ==> #[trigger] named_at(es, name, ts[a].0, ts[a].1)
}

pub open spec fn item_at(es: Seq<YamlView>, p: int, i: int) -> YamlView {
    insert_items(es[p])->0[i]
}

/// Removing the last target keeps the other targets in place and moves any
/// item of another server without changing it.
#[verifier::spinoff_prover]
#[verifier::rlimit(80)]
proof fn lemma_remove_step_keeps(cur: Seq<YamlView>, name: Seq<char>, ts: Seq<(int, int)>, other: Seq<char>, q: int, j: int)
    requires
        ts.len() > 0,
        sorted_targets(ts),
        exact_targets(cur, name, ts),
        other != name,
        named_at(cur, other, q, j),
    ensures
        exact_targets(remove_target(cur, ts.last()), name, ts.drop_last()),
        exists|q2: int, j2: int|
            #[trigger] named_at(remove_target(cur, ts.last()), other, q2, j2) && item_at(remove_target(cur, ts.last()), q2, j2)
                == item_at(cur, q, j),
{
    let t = ts.last();
    let (p, i) = (t.0, t.1);
    let nw = remove_target(cur, t);
    let rest = ts.drop_last();
    assert(named_at(cur, name, p, i)) by {
        assert(ts[ts.len() - 1] == t);
    }
    let xs = insert_items(cur[p])->0;
    lemma_without_insert_item(cur[p], i);
    assert forall|a: int| 0 <= a < rest.len() implies #[trigger] named_at(nw, name, rest[a].0, rest[a].1) by {
        assert(rest[a] == ts[a]);
        lemma_sorted_last(ts, a);
        let (q1, j1) = (ts[a].0, ts[a].1);
        assert(named_at(cur, name, q1, j1));
        if xs.len() == 1 {
            assert(q1 < p) by {
                if q1 == p {
                    assert(j1 < i);
                }
            }
            assert(nw[q1] == cur[q1]);
        } else if q1 == p {
            let ys = xs.remove(i);
            assert(ys[j1] == xs[j1]);
        } else {
            assert(nw[q1] == cur[q1]);
        }
    }
    if xs.len() == 1 {
        assert(q != p) by {
            if q == p {
                assert(j == 0 && i == 0);
            }
        }
        if q < p {
            assert(nw[q] == cur[q]);
            assert(named_at(nw, other, q, j));
        } else {
            assert(nw[q - 1] == cur[q]);
            assert(named_at(nw, other, q - 1, j));
        }
    } else if q == p {
        let ys = xs.remove(i);
        assert(j != i);
        if j < i {
            assert(ys[j] == xs[j]);
            assert(named_at(nw, other, q, j));
        } else {
            assert(ys[j - 1] == xs[j]);
            assert(named_at(nw, other, q, j - 1));
        }
    } else {
        assert(nw[q] == cur[q]);
        assert(named_at(nw, other, q, j));
    }
}

proof fn lemma_remove_targets_keeps(cur: Seq<YamlView>, name: Seq<char>, ts: Seq<(int, int)>, other: Seq<char>, q: int, j: int)
    requires
        sorted_targets(ts),
        exact_targets(cur, name, ts),
        other != name,
        named_at(cur, other, q, j),
    ensures
        exists|q2: int, j2: int|
            #[trigger] named_at(remove_targets(cur, ts), other, q2, j2) && item_at(remove_targets(cur, ts), q2, j2) == item_at(cur, q, j),
    decreases ts.len(),
{
    if ts.len() == 0 {
        assert(remove_targets(cur, ts) == cur);
        assert(named_at(remove_targets(cur, ts), other, q, j));
    } else {
        lemma_remove_step_keeps(cur, name, ts, other, q, j);
        let next = remove_target(cur, ts.last());
        let (q2, j2) = choose|q2: int, j2: int| #[trigger] named_at(next, other, q2, j2) && item_at(next, q2, j2) == item_at(cur, q, j);
        let rest = ts.drop_last();
        assert forall|a: int, b: int| 0 <= a < b < rest.len() implies pos_lt(#[trigger] rest[a], #[trigger] rest[b]) by {
            assert(rest[a] == ts[a] && rest[b] == ts[b]);
        }
        lemma_remove_targets_keeps(next, name, rest, other, q2, j2);
        assert(remove_targets(cur, ts) == remove_targets(next, ts.drop_last()));
    }
}

/// A removal keeps every other server: each server of another name read
/// back before is read back after, with the same definition.
pub proof fn law_remove_keeps_others(es: Seq<YamlView>, name: Seq<char>, k: int)
    requires
        0 <= k < spec_servers(es).len(),
        spec_servers(es)[k].0 != name,
    ensures
        exists|k2: int| 0 <= k2 < spec_servers(spec_remove(es, name)).len() && #[trigger] spec_servers(spec_remove(es, name))[k2]
            == spec_servers(es)[k],
{
    let found = mcp_client_entries(es);
    let ts = named_targets(found, name);
    lemma_mce_sorted(es);
    lemma_targets_sorted(found, name);
    assert forall|a: int| 0 <= a < ts.len() implies #[trigger] named_at(es, name, ts[a].0, ts[a].1) by {
        lemma_named_targets_from(found, name, a);
        let f = choose|f: int| 0 <= f < found.len() && #[trigger] found[f].2 == name && ts[a] == (found[f].0, found[f].1);
        lemma_mcp_client_entries(es, f);
    }
    lemma_mcp_client_entries(es, k);
    let f = found[k];
    let other = f.2;
    lemma_remove_targets_keeps(es, name, ts, other, f.0, f.1);
    let after = spec_remove(es, name);
    let (q2, j2) = choose|q2: int, j2: int| #[trigger] named_at(after, other, q2, j2) && item_at(after, q2, j2) == item_at(es, f.0, f.1);
    lemma_mce_contains(after, q2, j2, other);
    let k2 = choose|k2: int| 0 <= k2 < mcp_client_entries(after).len() && #[trigger] mcp_client_entries(after)[k2] == (q2, j2, other);
    assert(spec_servers(after)[k2] == spec_servers(es)[k]);
}


// ---------------------------------------------------------------------------
// What a removal leaves, as a list
// ---------------------------------------------------------------------------

/// The servers listed by plugin items, in order.
pub open spec fn item_servers(xs: Seq<YamlView>) -> Seq<(Seq<char>, JsonView)>
    decreases xs.len(),
{
    if xs.len() == 0 {
        Seq::empty()
    } else {
        item_servers(xs.drop_last()) + match plugin_server_name(xs.last()) {
            Some(n) => seq![(n, config_or_empty(plugin_config_v(xs.last())))],
            None => Seq::empty(),
        }
    }
}

/// The servers listed by one patch entry.
pub open spec fn entry_servers(e: YamlView) -> Seq<(Seq<char>, JsonView)> {
    match insert_items(e) {
        Some(xs) => item_servers(xs),
        None => Seq::empty(),
    }
}

/// The servers listed by the patch entries, entry by entry.
pub open spec fn all_servers(es: Seq<YamlView>) -> Seq<(Seq<char>, JsonView)>
    decreases es.len(),
{
    if es.len() == 0 {
        Seq::empty()
    } else {
        all_servers(es.drop_last()) + entry_servers(es.last())
    }
}

/// `xs` without the servers named `name`, the others in their order.
pub open spec fn without_name(xs: Seq<(Seq<char>, JsonView)>, name: Seq<char>) -> Seq<(Seq<char>, JsonView)>
    decreases xs.len(),
{
    if xs.len() == 0 {
        xs
    } else {
        let r = without_name(xs.drop_last(), name);
        if xs.last().0 == name {
            r
        } else {
            r.push(xs.last())
        }
    }
}

spec fn found_servers(found: Seq<(int, int, Seq<char>)>, items: Seq<YamlView>) -> Seq<(Seq<char>, JsonView)> {
    Seq::new(found.len(), |k: int| (found[k].2, config_or_empty(plugin_config_v(items[found[k].1]))))
}

proof fn lemma_found_servers(p: int, items: Seq<YamlView>)
    ensures
        found_servers(found_in_items(p, items), items) == item_servers(items),
    decreases items.len(),
{
    if items.len() > 0 {
        let init = items.drop_last();
        lemma_found_servers(p, init);
        let prev = found_in_items(p, init);
        let f = found_in_items(p, items);
        let lhs = found_servers(f, items);
        let lprev = found_servers(prev, init);
        assert forall|k: int| 0 <= k < prev.len() implies #[trigger] lhs[k] == lprev[k] by {
            lemma_found_in_items(p, init, k);
            assert(f[k] == prev[k]);
            assert(items[prev[k].1] == init[prev[k].1]);
        }
        match plugin_server_name(items.last()) {
            Some(n) => {
                assert(f[prev.len() as int] == (p, items.len() - 1, n));
                assert(lhs =~= lprev + seq![(n, config_or_empty(plugin_config_v(items.last())))]);
            },
            None => {
                assert(lhs =~= lprev + Seq::<(Seq<char>, JsonView)>::empty());
            },
        }
    }
}

/// The servers of a patch are those its entries list, entry by entry.
proof fn lemma_spec_servers_all(es: Seq<YamlView>)
    ensures
        spec_servers(es) == all_servers(es),
    decreases es.len(),
{
    if es.len() > 0 {
        let init = es.drop_last();
        lemma_spec_servers_all(init);
        let m = mcp_client_entries(init).len();
        let last = es.last();
        let n = es.len() - 1;
        let a = spec_servers(es);
        let b = spec_servers(init);
        let tail = entry_servers(last);
        assert forall|k: int| 0 <= k < m implies #[trigger] a[k] == b[k] by {
            lemma_mcp_client_entries(init, k);
            let f = mcp_client_entries(init)[k];
            assert(mcp_client_entries(es)[k] == f);
            assert(es[f.0] == init[f.0]);
        }
        match insert_items(last) {
            Some(items) => {
                let fi = found_in_items(n, items);
                lemma_found_servers(n, items);
                assert forall|k: int| m <= k < a.len() implies #[trigger] a[k] == tail[k - m] by {
                    lemma_found_in_items(n, items, k - m);
                    assert(mcp_client_entries(es)[k] == fi[k - m]);
                    assert(found_servers(fi, items)[k - m] == tail[k - m]);
                }
                assert(a =~= b + tail);
            },
            None => {
                assert(mcp_client_entries(es) =~= mcp_client_entries(init));
                assert(a =~= b + tail);
            },
        }
    }
}

proof fn lemma_all_servers_add(a: Seq<YamlView>, b: Seq<YamlView>)
    ensures
        all_servers(a + b) == all_servers(a) + all_servers(b),
    decreases b.len(),
{
    if b.len() == 0 {
        assert(a + b =~= a);
    } else {
        lemma_all_servers_add(a, b.drop_last());
        assert((a + b).drop_last() =~= a + b.drop_last());
        assert((a + b).last() == b.last());
    }
}

proof fn lemma_item_servers_add(a: Seq<YamlView>, b: Seq<YamlView>)
    ensures
        item_servers(a + b) == item_servers(a) + item_servers(b),
    decreases b.len(),
{
    if b.len() == 0 {
        assert(a + b =~= a);
    } else {
        lemma_item_servers_add(a, b.drop_last());
        assert((a + b).drop_last() =~= a + b.drop_last());
        assert((a + b).last() == b.last());
    }
}

proof fn lemma_without_name_add(a: Seq<(Seq<char>, JsonView)>, b: Seq<(Seq<char>, JsonView)>, name: Seq<char>)
    ensures
        without_name(a + b, name) == without_name(a, name) + without_name(b, name),
    decreases b.len(),
{
    if b.len() == 0 {
        assert(a + b =~= a);
    } else {
        lemma_without_name_add(a, b.drop_last(), name);
        assert((a + b).drop_last() =~= a + b.drop_last());
        assert((a + b).last() == b.last());
    }
}

/// A list without any server named `name` is left as it is.
proof fn lemma_without_absent(xs: Seq<(Seq<char>, JsonView)>, name: Seq<char>)
    requires
        forall|k: int| 0 <= k < xs.len() ==> (#[trigger] xs[k]).0 != name,
    ensures
        without_name(xs, name) == xs,
    decreases xs.len(),
{
    if xs.len() > 0 {
        let init = xs.drop_last();
        assert forall|k: int| 0 <= k < init.len() implies (#[trigger] init[k]).0 != name by {
            assert(init[k] == xs[k]);
        }
        lemma_without_absent(init, name);
        assert(xs.last() == xs[xs.len() - 1]);
        assert(init.push(xs.last()) =~= xs);
    }
}

/// Removing a plugin item of `name` from a list of items changes nothing
/// but the servers named `name`.
proof fn lemma_item_removed(xs: Seq<YamlView>, i: int, name: Seq<char>)
    requires
        0 <= i < xs.len(),
        plugin_server_name(xs[i]) == Some(name),
    ensures
        without_name(item_servers(xs.remove(i)), name) == without_name(item_servers(xs), name),
{
    let a = xs.take(i);
    let b = xs.skip(i + 1);
    assert(xs =~= a + seq![xs[i]] + b);
    assert(xs.remove(i) =~= a + b);
    lemma_item_servers_add(a + seq![xs[i]], b);
    lemma_item_servers_add(a, seq![xs[i]]);
    lemma_item_servers_add(a, b);
    let one = seq![xs[i]];
    assert(one.drop_last() =~= Seq::<YamlView>::empty());
    let mid = item_servers(one);
    assert(one.last() == xs[i]);
    assert(item_servers(one.drop_last()) =~= Seq::<(Seq<char>, JsonView)>::empty());
    assert(mid =~= seq![(name, config_or_empty(plugin_config_v(xs[i])))]);
    lemma_without_name_add(item_servers(a) + mid, item_servers(b), name);
    lemma_without_name_add(item_servers(a), mid, name);
    lemma_without_name_add(item_servers(a), item_servers(b), name);
    assert(mid.drop_last() =~= Seq::<(Seq<char>, JsonView)>::empty());
    assert(without_name(mid.drop_last(), name) =~= Seq::<(Seq<char>, JsonView)>::empty());
    assert(mid.last().0 == name);
    assert(without_name(mid, name) =~= Seq::<(Seq<char>, JsonView)>::empty());
}

/// Removing one plugin item of `name` changes nothing but the servers named `name`.
#[verifier::spinoff_prover]
#[verifier::rlimit(40)]
proof fn lemma_target_removed(cur: Seq<YamlView>, name: Seq<char>, p: int, i: int)
    requires
        named_at(cur, name, p, i),
    ensures
        without_name(all_servers(remove_target(cur, (p, i))), name) == without_name(all_servers(cur), name),
{
    let xs = insert_items(cur[p])->0;
    let pre = cur.take(p);
    let post = cur.skip(p + 1);
    assert(cur =~= pre + seq![cur[p]] + post);
    let one = seq![cur[p]];
    assert(one.drop_last() =~= Seq::<YamlView>::empty());
    assert(all_servers(one.drop_last()) =~= Seq::<(Seq<char>, JsonView)>::empty());
    assert(one.last() == cur[p]);
    assert(all_servers(one) =~= entry_servers(cur[p]));
    lemma_all_servers_add(pre + one, post);
    lemma_all_servers_add(pre, one);
    lemma_without_name_add(all_servers(pre) + entry_servers(cur[p]), all_servers(post), name);
    lemma_without_name_add(all_servers(pre), entry_servers(cur[p]), name);
    lemma_item_removed(xs, i, name);
    if xs.len() == 1 {
        assert(remove_target(cur, (p, i)) == cur.remove(p));
        assert(cur.remove(p) =~= pre + post);
        lemma_all_servers_add(pre, post);
        lemma_without_name_add(all_servers(pre), all_servers(post), name);
        assert(xs.remove(i).len() == 0);
        assert(item_servers(xs.remove(i)) =~= Seq::<(Seq<char>, JsonView)>::empty());
        assert(without_name(item_servers(xs.remove(i)), name) =~= Seq::<(Seq<char>, JsonView)>::empty());
        assert(all_servers(pre) + all_servers(post) =~= all_servers(pre) + Seq::<(Seq<char>, JsonView)>::empty() + all_servers(post));
        assert(without_name(all_servers(pre), name) + without_name(all_servers(post), name) =~= without_name(all_servers(pre), name) + without_name(entry_servers(cur[p]), name) + without_name(all_servers(post), name));
    } else {
        let e2 = without_insert_item(cur[p], i);
        lemma_without_insert_item(cur[p], i);
        assert(remove_target(cur, (p, i)) == cur.update(p, e2));
        let two = seq![e2];
        assert(cur.update(p, e2) =~= pre + two + post);
        assert(two.drop_last() =~= Seq::<YamlView>::empty());
        assert(all_servers(two.drop_last()) =~= Seq::<(Seq<char>, JsonView)>::empty());
        assert(two.last() == e2);
        assert(all_servers(two) =~= entry_servers(e2));
        lemma_all_servers_add(pre + two, post);
        lemma_all_servers_add(pre, two);
        lemma_without_name_add(all_servers(pre) + entry_servers(e2), all_servers(post), name);
        lemma_without_name_add(all_servers(pre), entry_servers(e2), name);
    }
}

proof fn lemma_targets_removed(cur: Seq<YamlView>, name: Seq<char>, ts: Seq<(int, int)>)
    requires
        sorted_targets(ts),
        forall|a: int| 0 <= a < ts.len() ==> #[trigger] named_at(cur, name, ts[a].0, ts[a].1),
    ensures
        without_name(all_servers(remove_targets(cur, ts)), name) == without_name(all_servers(cur), name),
    decreases ts.len(),
{
    if ts.len() > 0 {
        let t = ts.last();
        let (p, i) = (t.0, t.1);
        assert(named_at(cur, name, ts[ts.len() - 1].0, ts[ts.len() - 1].1));
        lemma_target_removed(cur, name, p, i);
        let nw = remove_target(cur, t);
        let rest = ts.drop_last();
        let xs = insert_items(cur[p])->0;
        assert forall|a: int| 0 <= a < rest.len() implies #[trigger] named_at(nw, name, rest[a].0, rest[a].1) by {
            let (q, j) = (rest[a].0, rest[a].1);
            assert(rest[a] == ts[a]);
            assert(pos_lt(ts[a], ts[ts.len() - 1]));
            assert(named_at(cur, name, ts[a].0, ts[a].1));
            if xs.len() == 1 {
                assert(q < p);
                assert(nw[q] == cur[q]);
            } else {
                lemma_without_insert_item(cur[p], i);
                if q != p {
                    assert(nw[q] == cur[q]);
                } else {
                    assert(j < i);
                    assert(insert_items(nw[p]) == Some(xs.remove(i)));
                    assert(xs.remove(i)[j] == xs[j]);
                }
            }
        }
        assert forall|a: int, b: int| 0 <= a < b < rest.len() implies pos_lt(#[trigger] rest[a], #[trigger] rest[b]) by {
            assert(rest[a] == ts[a] && rest[b] == ts[b]);
        }
        lemma_targets_removed(nw, name, rest);
    }
}

/// A removal lists exactly the servers listed before except those named
/// `name`, in their order.
pub proof fn law_remove_lists_the_rest(es: Seq<YamlView>, name: Seq<char>)
    ensures
        spec_servers(spec_remove(es, name)) == without_name(spec_servers(es), name),
{
    let found = mcp_client_entries(es);
    let ts = named_targets(found, name);
    lemma_mce_sorted(es);
    lemma_targets_sorted(found, name);
    assert forall|a: int| 0 <= a < ts.len() implies #[trigger] named_at(es, name, ts[a].0, ts[a].1) by {
        lemma_named_targets_from(found, name, a);
        let f = choose|f: int| 0 <= f < found.len() && #[trigger] found[f].2 == name && ts[a] == (found[f].0, found[f].1);
        lemma_mcp_client_entries(es, f);
    }
    lemma_targets_removed(es, name, ts);
    let after = spec_remove(es, name);
    law_remove_then_get(es, name);
    lemma_spec_servers_all(after);
    lemma_spec_servers_all(es);
    lemma_without_absent(spec_servers(after), name);
}

/// Writing a loaded patch back keeps its header: whatever entries are
/// written, the text starts with the file's leading comment lines.
pub proof fn law_render_keeps_header(content: Seq<char>, path: Seq<char>, written: Seq<YamlView>)
    requires
        spec_parse_patch(content, path) is Ok,
    ensures
        spec_render_patch(written, spec_parse_patch(content, path)->Ok_0.1) matches Ok(t) ==> starts_with(
            t,
            spec_extract_header_comments(content),
        ),
{
    let h = spec_parse_patch(content, path)->Ok_0.1;
    assert(h == spec_extract_header_comments(content));
    if let Ok(body) = spec_dump_patch_yaml(written) {
        assert((h + body).take(h.len() as int) =~= h);
    }
}

/// The `id` the written plugin item of an upsert carries: the replaced
/// item's own string `id`, else `mcp-<name>`.
pub open spec fn kept_plugin_id(old_item: YamlView, name: Seq<char>) -> Seq<char> {
    match plugin_id_v(old_item) {
        Some(x) => x,
        None => default_plugin_id(name),
    }
}

/// An upsert of a server already in the patch replaces its plugin item in
/// place: same entry, same position in the `insert` list, the server's name,
/// and the item's own string `id` kept (a custom id survives).
#[verifier::spinoff_prover]
#[verifier::rlimit(60)]
pub proof fn law_upsert_in_place(es: Seq<YamlView>, name: Seq<char>, config: JsonView)
    requires
        config is Object,
        json_plain(config),
        entries_get(config->Object_0, "serverName"@) is None,
        first_named(mcp_client_entries(es), name) is Some,
    ensures
        ({
            let found = mcp_client_entries(es);
            let k = first_named(found, name)->0;
            let (p, i) = (found[k].0, found[k].1);
            let out = spec_upsert(es, name, config)->Ok_0;
            &&& spec_upsert(es, name, config) is Ok
            &&& out.len() == es.len()
            &&& 0 <= p < es.len()
            &&& forall|q: int| 0 <= q < es.len() && q != p ==> #[trigger] out[q] == es[q]
            &&& insert_items(out[p]) is Some
            &&& insert_items(out[p])->0.len() == insert_items(es[p])->0.len()
            &&& 0 <= i < insert_items(out[p])->0.len()
            &&& plugin_server_name(insert_items(out[p])->0[i]) == Some(name)
            &&& plugin_id_v(insert_items(out[p])->0[i]) == Some(kept_plugin_id(insert_items(es[p])->0[i], name))
        }),
{
    let found = mcp_client_entries(es);
    lemma_first_named(found, name);
    let k = first_named(found, name)->0;
    lemma_mcp_client_entries(es, k);
    let (p, i) = (found[k].0, found[k].1);
    let id = kept_plugin_id(insert_items(es[p])->0[i], name);
    let full = full_config_v(name, config);
    let pj = plugin_json(id, full);
    lemma_plugin_item(id, name, config);
    let y = yaml_image(pj);
    assert(to_yaml_v(pj) == Ok::<YamlView, Seq<char>>(y));
    let out = es.update(p, with_insert_item(es[p], i, y));
    assert(spec_upsert(es, name, config) == Ok::<Seq<YamlView>, Seq<char>>(out));
    lemma_with_insert_item(es[p], i, y);
    assert(insert_items(out[p])->0[i] == y);
    reveal_strlit("id");
    reveal_strlit("name");
    reveal_strlit("config");
    lemma_key_index_is(pj->Object_0, "id"@, 0);
    lemma_image_get(pj->Object_0, "id"@);
    assert(yget(y, "id"@) == Some(YamlView::Str(id)));
}

proof fn lemma_named_targets_some(found: Seq<(int, int, Seq<char>)>, name: Seq<char>)
    ensures
        (named_targets(found, name).len() > 0) == (exists|k: int| 0 <= k < found.len() && (#[trigger] found[k]).2 == name),
    decreases found.len(),
{
    if found.len() > 0 {
        let init = found.drop_last();
        lemma_named_targets_some(init, name);
        if exists|k: int| 0 <= k < init.len() && (#[trigger] init[k]).2 == name {
            let k = choose|k: int| 0 <= k < init.len() && (#[trigger] init[k]).2 == name;
            assert(found[k] == init[k]);
        }
        if exists|k: int| 0 <= k < found.len() && (#[trigger] found[k]).2 == name {
            let k = choose|k: int| 0 <= k < found.len() && (#[trigger] found[k]).2 == name;
            if k < init.len() {
                assert(init[k] == found[k]);
            }
        }
    }
}

/// Removing a server: the file is rewritten exactly when the patch lists a
/// server of that name; the servers then listed are the old ones without
/// that name, in order; and with no such server the patch is left as it is.
pub proof fn law_remove_server(es: Seq<YamlView>, name: Seq<char>)
    ensures
        (named_targets(mcp_client_entries(es), name).len() > 0) == (exists|k: int|
            0 <= k < spec_servers(es).len() && (#[trigger] spec_servers(es)[k]).0 == name),
        spec_servers(spec_remove(es, name)) == without_name(spec_servers(es), name),
        named_targets(mcp_client_entries(es), name).len() == 0 ==> spec_remove(es, name) == es,
{
    let found = mcp_client_entries(es);
    lemma_named_targets_some(found, name);
    if exists|k: int| 0 <= k < found.len() && (#[trigger] found[k]).2 == name {
        let k = choose|k: int| 0 <= k < found.len() && (#[trigger] found[k]).2 == name;
        assert(spec_servers(es)[k].0 == name);
    }
    if exists|k: int| 0 <= k < spec_servers(es).len() && (#[trigger] spec_servers(es)[k]).0 == name {
        let k = choose|k: int| 0 <= k < spec_servers(es).len() && (#[trigger] spec_servers(es)[k]).0 == name;
        assert(found[k].2 == name);
    }
    law_remove_lists_the_rest(es, name);
}

} // verus!
