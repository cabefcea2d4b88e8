//! ZCode sessions (`<zcode dir>/cli/db/db.sqlite`, the opencode schema with
//! `sess_` session ids): source references, session rows and the assembly of
//! messages from their parts. The database is read by the caller.
use vstd::prelude::*;
use crate::json::{JsonValue, JsonView, spec_json_parse, spec_get_str, parse_json};
use crate::text::{
    str_chars, chars_slice, to_owned_string, concat_str, push_str, str_eq, strip_prefix,
    strip_prefix_seq, find_last, occurs_at, contains_seq, trim, trim_string, starts_with,
};

verus! {

pub const PROVIDER_ID: &'static str = "zcode";

/// A session listing entry.
#[derive(Debug)]
pub struct SessionMeta {
    pub provider_id: String,
    pub session_id: String,
    pub title: Option<String>,
    pub summary: Option<String>,
    pub project_dir: Option<String>,
    pub created_at: Option<i64>,
    pub last_active_at: Option<i64>,
    pub source_path: Option<String>,
    pub resume_command: Option<String>,
}

/// A message of a session.
#[derive(Debug)]
pub struct SessionMessage {
    pub role: String,
    pub content: String,
    pub ts: Option<i64>,
}

/// Last index at which `pat` occurs in `s`.
pub open spec fn last_occurrence(s: Seq<char>, pat: Seq<char>) -> int {
    choose|i: int| occurs_at(s, pat, i) && forall|j: int| i < j ==> !occurs_at(s, pat, j)
}

/// `sqlite:<db path>:<session id>`: the path ends at the last `:sess_`
/// (paths may hold colons), the id starts after that colon. `None` without
/// the `sqlite:` prefix or a `:sess_`.
pub open spec fn spec_parse_sqlite_source(source: Seq<char>) -> Option<(Seq<char>, Seq<char>)> {
    match strip_prefix_seq(source, "sqlite:"@) {
        None => None,
        Some(rest) => if contains_seq(rest, ":sess_"@) {
            let sep = last_occurrence(rest, ":sess_"@);
            Some((rest.take(sep), rest.skip(sep + 1)))
        } else {
            None
        },
    }
}

pub fn parse_sqlite_source(source: &str) -> (r: Option<(String, String)>)
    ensures
        match r {
            Some((p, id)) => spec_parse_sqlite_source(source@) == Some((p@, id@)),
            None => spec_parse_sqlite_source(source@) is None,
        },
{
    let rest = match strip_prefix(source, "sqlite:") {
        Some(r) => r,
        None => return None,
    };
    let v = str_chars(rest.as_str());
    let pat = str_chars(":sess_");
    proof {
        reveal_strlit(":sess_");
        assert(pat@.len() == 6);
    }
    match find_last(&v, &pat) {
        Some(sep) => {
            proof {
                let c = last_occurrence(rest@, ":sess_"@);
                assert(occurs_at(rest@, ":sess_"@, sep as int));
                if c > sep {
                    assert(!occurs_at(rest@, ":sess_"@, c));
                } else if c < sep {
                    assert(!occurs_at(rest@, ":sess_"@, sep as int));
                }
            }
            assert(sep + 6 <= v@.len());
            assert(v@.len() == v.len());
            assert(sep < v.len());
            let path = chars_slice(&v, 0, sep);
            let id = chars_slice(&v, sep + 1, v.len());
            assert(path@ =~= rest@.take(sep as int));
            assert(id@ =~= rest@.skip(sep + 1));
            Some((path, id))
        },
        None => None,
    }
}

proof fn lemma_marker_at_id(db: Seq<char>, id: Seq<char>)
    requires
        starts_with(id, "sess_"@),
    ensures
        occurs_at(db + ":"@ + id, ":sess_"@, db.len() as int),
{
    reveal_strlit(":");
    reveal_strlit("sess_");
    reveal_strlit(":sess_");
    let rest = db + ":"@ + id;
    let n = db.len() as int;
    assert(id.take(5) == "sess_"@);
    assert forall|k: int| 0 <= k < 6 implies #[trigger] rest.subrange(n, n + 6)[k] == ":sess_"@[k] by {
        if k == 0 {
            assert(rest[n] == ':');
        } else {
            assert(rest[n + k] == id[k - 1]);
            assert(id[k - 1] == id.take(5)[k - 1]);
        }
    }
    assert(rest.subrange(n, n + 6) =~= ":sess_"@);
}

proof fn lemma_no_marker_after(db: Seq<char>, id: Seq<char>, j: int)
    requires
        !contains_seq(id, ":sess_"@),
        db.len() < j,
    ensures
        !occurs_at(db + ":"@ + id, ":sess_"@, j),
{
    reveal_strlit(":");
    let rest = db + ":"@ + id;
    let n = db.len() as int;
    let pat = ":sess_"@;
    if occurs_at(rest, pat, j) {
        assert(id.subrange(j - n - 1, j - n - 1 + pat.len()) =~= rest.subrange(j, j + pat.len()));
        assert(occurs_at(id, pat, j - n - 1));
    }
}

/// The source reference a session listing hands out is read back as the
/// database path and session id it was made of: `sqlite:<db>:<id>` parses
/// to `(db, id)` for any path (colons and `:sess_` included) and any ZCode
/// id, which starts with `sess_` and holds no `:sess_` of its own.
pub proof fn law_source_round_trip(db: Seq<char>, id: Seq<char>)
    requires
        starts_with(id, "sess_"@),
        !contains_seq(id, ":sess_"@),
    ensures
        spec_parse_sqlite_source("sqlite:"@ + db + ":"@ + id) == Some((db, id)),
{
    let pat = ":sess_"@;
    let rest = db + ":"@ + id;
    let source = "sqlite:"@ + rest;
    let n = db.len() as int;
    assert(source =~= "sqlite:"@ + db + ":"@ + id);
    assert(source.take("sqlite:"@.len() as int) =~= "sqlite:"@);
    assert(source.skip("sqlite:"@.len() as int) =~= rest);
    assert(strip_prefix_seq(source, "sqlite:"@) == Some(rest));
    lemma_marker_at_id(db, id);
    assert forall|j: int| n < j implies !#[trigger] occurs_at(rest, pat, j) by {
        lemma_no_marker_after(db, id, j);
    }
    let c = last_occurrence(rest, pat);
    assert(c == n) by {
        assert(occurs_at(rest, pat, n) && forall|j: int| n < j ==> !#[trigger] occurs_at(rest, pat, j));
        if c < n {
            assert(!occurs_at(rest, pat, n));
        } else if c > n {
            assert(!occurs_at(rest, pat, c));
        }
    }
    assert(rest.take(n) =~= db) by {
        reveal_strlit(":");
    }
    assert(rest.skip(n + 1) =~= id) by {
        reveal_strlit(":");
    }
}


/// The text a part contributes: a non-blank `text` part gives its text, a
/// `tool` part `[Tool: <tool>]` (`unknown` without a tool name).
pub open spec fn spec_part_text(part: JsonView) -> Option<Seq<char>> {
    match spec_get_str(part, "type"@) {
        Some(t) => if t == "text"@ {
            match spec_get_str(part, "text"@) {
                Some(x) => if trim(x).len() > 0 {
                    Some(x)
                } else {
                    None
                },
                None => None,
            }
        } else if t == "tool"@ {
            let tool = match spec_get_str(part, "tool"@) {
                Some(x) => x,
                None => "unknown"@,
            };
            Some("[Tool: "@ + tool + "]"@)
        } else {
            None
        },
        None => None,
    }
}

pub fn extract_part_text(part: &JsonValue) -> (r: Option<String>)
    ensures
        match r {
            Some(t) => spec_part_text(part@) == Some(t@),
            None => spec_part_text(part@) is None,
        },
{
    let t = match part.get_str("type") {
        Some(t) => t,
        None => return None,
    };
    if str_eq(t.as_str(), "text") {
        match part.get_str("text") {
            Some(x) => if !trim_string(x.as_str()).as_str().is_empty() {
                Some(x)
            } else {
                None
            },
            None => None,
        }
    } else if str_eq(t.as_str(), "tool") {
        let tool = match part.get_str("tool") {
            Some(x) => x,
            None => to_owned_string("unknown"),
        };
        let mut out = to_owned_string("[Tool: ");
        push_str(&mut out, tool.as_str());
        push_str(&mut out, "]");
        Some(out)
    } else {
        None
    }
}

/// The texts of the parts of message `id`, in part order (parts that are
/// not JSON or contribute nothing are skipped).
pub open spec fn message_texts(id: Seq<char>, parts: Seq<(Seq<char>, Seq<char>)>) -> Seq<Seq<char>>
    decreases parts.len(),
{
    if parts.len() == 0 {
        Seq::empty()
    } else {
        let prev = message_texts(id, parts.drop_last());
        let (mid, data) = parts.last();
        if mid == id {
            match spec_json_parse(data) {
                Ok(v) => match spec_part_text(v) {
                    Some(t) => prev.push(t),
                    None => prev,
                },
                Err(_) => prev,
            }
        } else {
            prev
        }
    }
}

/// The texts joined with `\n`.
pub open spec fn join_nl(ts: Seq<Seq<char>>) -> Seq<char>
    decreases ts.len(),
{
    if ts.len() == 0 {
        Seq::empty()
    } else if ts.len() == 1 {
        ts[0]
    } else {
        join_nl(ts.drop_last()) + "\n"@ + ts.last()
    }
}

pub type MessageRow = (Seq<char>, i64, Seq<char>);

/// The messages of a session: each message row (id, time, data) whose data
/// is JSON gives its `role` (`unknown` when absent) and its parts' texts
/// joined by newlines; messages with blank content are left out.
pub open spec fn assembled(msgs: Seq<MessageRow>, parts: Seq<(Seq<char>, Seq<char>)>) -> Seq<(Seq<char>, Seq<char>, i64)>
    decreases msgs.len(),
{
    if msgs.len() == 0 {
        Seq::empty()
    } else {
        let prev = assembled(msgs.drop_last(), parts);
        let (id, ts, data) = msgs.last();
        match spec_json_parse(data) {
            Err(_) => prev,
            Ok(v) => {
                let role = match spec_get_str(v, "role"@) {
                    Some(r) => r,
                    None => "unknown"@,
                };
                let content = join_nl(message_texts(id, parts));
                if trim(content).len() == 0 {
                    prev
                } else {
                    prev.push((role, content, ts))
                }
            },
        }
    }
}

pub open spec fn row_views(v: Seq<(String, i64, String)>) -> Seq<MessageRow> {
    v.map_values(|r: (String, i64, String)| (r.0@, r.1, r.2@))
}

pub open spec fn part_views(v: Seq<(String, String)>) -> Seq<(Seq<char>, Seq<char>)> {
    v.map_values(|r: (String, String)| (r.0@, r.1@))
}

pub open spec fn message_views(v: Seq<SessionMessage>) -> Seq<(Seq<char>, Seq<char>, i64)> {
    v.map_values(|m: SessionMessage| (m.role@, m.content@, match m.ts {
        Some(t) => t,
        None => 0,
    }))
}

fn texts_of(id: &str, parts: &Vec<(String, String)>) -> (r: Vec<String>)
    ensures
        r@.map_values(|s: String| s@) == message_texts(id@, part_views(parts@)),
{
    let ghost pv = part_views(parts@);
    let mut out: Vec<String> = Vec::new();
    let mut i: usize = 0;
    assert(pv.take(0) =~= Seq::<(Seq<char>, Seq<char>)>::empty());
    while i < parts.len()
        invariant
            i <= parts@.len(),
            pv == part_views(parts@),
            out@.map_values(|s: String| s@) == message_texts(id@, pv.take(i as int)),
        decreases parts.len() - i,
    {
        assert(pv.take(i + 1).drop_last() =~= pv.take(i as int));
        assert(pv.take(i + 1).last() == (parts@[i as int].0@, parts@[i as int].1@));
        let ghost prev = out@.map_values(|s: String| s@);
        if str_eq(parts[i].0.as_str(), id) {
            match parse_json(parts[i].1.as_str()) {
                Ok(v) => match extract_part_text(&v) {
                    Some(t) => {
                        out.push(t);
                        assert(out@.map_values(|s: String| s@) =~= prev.push(out@.last()@));
                    },
                    None => {},
                },
                Err(_) => {},
            }
        }
        i = i + 1;
    }
    assert(pv.take(parts@.len() as int) =~= pv);
    out
}

fn join_texts(ts: &Vec<String>) -> (r: String)
    ensures
        r@ == join_nl(ts@.map_values(|s: String| s@)),
{
    let ghost tv = ts@.map_values(|s: String| s@);
    let mut out = String::new();
    let mut i: usize = 0;
    assert(tv.take(0) =~= Seq::<Seq<char>>::empty());
    while i < ts.len()
        invariant
            i <= ts@.len(),
            tv == ts@.map_values(|s: String| s@),
            out@ == join_nl(tv.take(i as int)),
        decreases ts.len() - i,
    {
        assert(tv.take(i + 1).drop_last() =~= tv.take(i as int));
        if i > 0 {
            push_str(&mut out, "\n");
        } else {
            assert(out@ =~= Seq::<char>::empty());
        }
        push_str(&mut out, ts[i].as_str());
        assert(tv.take(i + 1).last() == ts@[i as int]@);
        if i == 0 {
            assert(out@ =~= tv.take(1)[0]);
        }
        i = i + 1;
    }
    assert(tv.take(ts@.len() as int) =~= tv);
    out
}

/// Builds the messages of a session from its message rows (id, time, data)
/// and part rows (message id, data), both in time order (see `assembled`).
pub fn assemble_messages(msgs: &Vec<(String, i64, String)>, parts: &Vec<(String, String)>) -> (r: Vec<SessionMessage>)
    ensures
        message_views(r@) == assembled(row_views(msgs@), part_views(parts@)),
        forall|i: int| 0 <= i < r@.len() ==> (#[trigger] r@[i]).ts is Some,
{
    let ghost mv = row_views(msgs@);
    let mut out: Vec<SessionMessage> = Vec::new();
    let mut i: usize = 0;
    assert(mv.take(0) =~= Seq::<MessageRow>::empty());
    while i < msgs.len()
        invariant
            i <= msgs@.len(),
            mv == row_views(msgs@),
            message_views(out@) == assembled(mv.take(i as int), part_views(parts@)),
            forall|k: int| 0 <= k < out@.len() ==> (#[trigger] out@[k]).ts is Some,
        decreases msgs.len() - i,
    {
        assert(mv.take(i + 1).drop_last() =~= mv.take(i as int));
        assert(mv.take(i + 1).last() == (msgs@[i as int].0@, msgs@[i as int].1, msgs@[i as int].2@));
        let ghost prev = message_views(out@);
        match parse_json(msgs[i].2.as_str()) {
            Ok(v) => {
                let role = match v.get_str("role") {
                    Some(r) => r,
                    None => to_owned_string("unknown"),
                };
                let texts = texts_of(msgs[i].0.as_str(), parts);
                let content = join_texts(&texts);
                if !trim_string(content.as_str()).as_str().is_empty() {
                    let m = SessionMessage { role, content, ts: Some(msgs[i].1) };
                    out.push(m);
                    assert(message_views(out@) =~= prev.push((out@.last().role@, out@.last().content@, msgs@[i as int].1)));
                }
            },
            Err(_) => {},
        }
        i = i + 1;
    }
    assert(mv.take(msgs@.len() as int) =~= mv);
    out
}

/// The listing entry of a session row: the title falls back to the
/// directory's base name (`dir_basename`), an empty directory is no project
/// directory, and ZCode sessions cannot be resumed from the command line.
pub fn session_meta(
    session_id: String,
    title: String,
    directory: String,
    created: i64,
    updated: i64,
    db_display: &str,
    dir_basename: Option<String>,
) -> (r: SessionMeta)
    ensures
        r.provider_id@ == PROVIDER_ID@,
        r.session_id@ == session_id@,
        r.title == (if title@.len() == 0 { dir_basename } else { Some(title) }),
        r.summary == r.title,
        r.project_dir == (if directory@.len() == 0 { None } else { Some(directory) }),
        r.created_at == Some(created),
        r.last_active_at == Some(updated),
        r.source_path matches Some(p) && p@ == "sqlite:"@ + db_display@ + ":"@ + session_id@,
        r.resume_command is None,
{
    let display_title = if title.as_str().is_empty() {
        dir_basename
    } else {
        Some(title)
    };
    let summary = match &display_title {
        Some(t) => Some(t.clone()),
        None => None,
    };
    let mut source = to_owned_string("sqlite:");
    push_str(&mut source, db_display);
    push_str(&mut source, ":");
    push_str(&mut source, session_id.as_str());
    let project_dir = if directory.as_str().is_empty() {
        None
    } else {
        Some(directory)
    };
    SessionMeta {
        provider_id: to_owned_string(PROVIDER_ID),
        session_id,
        title: display_title,
        summary,
        project_dir,
        created_at: Some(created),
        last_active_at: Some(updated),
        source_path: Some(source),
        resume_command: None,
    }
}

/// Checks a deletion request against its source reference: the session ids
/// must agree and the database must be ZCode's (both paths canonical).
pub fn check_delete_target(
    session_id: &str,
    ref_session_id: &str,
    db_path: &str,
    expected_db_path: &str,
) -> (r: Result<(), String>)
    ensures
        ref_session_id@ != session_id@ ==> (r matches Err(m) && m@ == "ZCode SQLite session ID mismatch: expected "@
            + session_id@ + ", found "@ + ref_session_id@),
        ref_session_id@ == session_id@ && db_path@ != expected_db_path@ ==> (r matches Err(m) && m@
            == "SQLite path does not match expected ZCode database"@),
        ref_session_id@ == session_id@ && db_path@ == expected_db_path@ ==> r is Ok,
{
    if !str_eq(ref_session_id, session_id) {
        let mut m = to_owned_string("ZCode SQLite session ID mismatch: expected ");
        push_str(&mut m, session_id);
        push_str(&mut m, ", found ");
        push_str(&mut m, ref_session_id);
        return Err(m);
    }
    if !str_eq(db_path, expected_db_path) {
        return Err(to_owned_string("SQLite path does not match expected ZCode database"));
    }
    Ok(())
}

} // verus!
