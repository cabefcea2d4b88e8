use cc_switch::zcode_sessions::{
    assemble_messages, check_delete_target, parse_sqlite_source, session_meta, extract_part_text,
    PROVIDER_ID,
};
use cc_switch::json::parse_json;

#[test]
fn parse_sqlite_source_accepts_zcode_sess_prefix() {
    let parsed = parse_sqlite_source("sqlite:C:/tmp/zcode.db:sess_cb23b701").expect("valid source");
    assert_eq!(parsed.0, String::from("C:/tmp/zcode.db"));
    assert_eq!(parsed.1, "sess_cb23b701");
}

#[test]
fn parse_sqlite_source_rejects_opencode_ses_prefix() {
    assert!(parse_sqlite_source("sqlite:/tmp/db.sqlite:ses_123").is_none());
    assert!(parse_sqlite_source("/tmp/db.sqlite:sess_123").is_none());
    assert!(parse_sqlite_source("sqlite:/tmp/db.sqlite").is_none());
}

#[test]
fn parse_sqlite_source_splits_at_the_last_session_marker() {
    let parsed = parse_sqlite_source("sqlite:/a:sess_x/db:sess_2").unwrap();
    assert_eq!(parsed.0, "/a:sess_x/db");
    assert_eq!(parsed.1, "sess_2");
}

#[test]
fn scan_sessions_reads_zcode_db_and_sets_no_resume_command() {
    let named = session_meta(
        "sess_2".to_string(),
        "Named Session".to_string(),
        "/tmp/project-b".to_string(),
        1_771_061_950_000,
        1_771_061_955_000,
        "/home/u/.zcode/cli/db/db.sqlite",
        Some("project-b".to_string()),
    );
    assert_eq!(named.session_id, "sess_2");
    assert_eq!(named.title.as_deref(), Some("Named Session"));

    let untitled = session_meta(
        "sess_1".to_string(),
        String::new(),
        "/tmp/project-a".to_string(),
        1_771_061_953_033,
        1_771_061_954_033,
        "/home/u/.zcode/cli/db/db.sqlite",
        Some("project-a".to_string()),
    );
    assert_eq!(untitled.session_id, "sess_1");
    assert_eq!(untitled.title.as_deref(), Some("project-a"));
    assert_eq!(untitled.project_dir.as_deref(), Some("/tmp/project-a"));
    assert_eq!(untitled.provider_id, "zcode");
    assert_eq!(untitled.resume_command, None);
    assert_eq!(
        untitled.source_path.as_deref(),
        Some("sqlite:/home/u/.zcode/cli/db/db.sqlite:sess_1")
    );
    assert_eq!(untitled.created_at, Some(1_771_061_953_033));
    assert_eq!(untitled.last_active_at, Some(1_771_061_954_033));
    assert_eq!(PROVIDER_ID, "zcode");
}

#[test]
fn session_without_directory_has_no_project_dir() {
    let meta = session_meta("sess_9".to_string(), String::new(), String::new(), 1, 2, "db", None);
    assert_eq!(meta.title, None);
    assert_eq!(meta.summary, None);
    assert_eq!(meta.project_dir, None);
}

#[test]
fn load_messages_sqlite_reads_messages_and_parts() {
    let msgs = vec![
        ("msg_1".to_string(), 1000_i64, r#"{"role":"user"}"#.to_string()),
        ("msg_2".to_string(), 2000_i64, r#"{"role":"assistant"}"#.to_string()),
    ];
    let parts = vec![
        ("msg_1".to_string(), r#"{"type":"text","text":"Hello"}"#.to_string()),
        ("msg_2".to_string(), r#"{"type":"tool","tool":"bash"}"#.to_string()),
        ("msg_2".to_string(), r#"{"type":"text","text":"Done"}"#.to_string()),
    ];
    let messages = assemble_messages(&msgs, &parts);
    assert_eq!(messages.len(), 2);
    assert_eq!(messages[0].role, "user");
    assert_eq!(messages[0].content, "Hello");
    assert_eq!(messages[0].ts, Some(1000));
    assert_eq!(messages[1].role, "assistant");
    assert_eq!(messages[1].content, "[Tool: bash]\nDone");
}

#[test]
fn messages_without_text_or_with_bad_json_are_skipped() {
    let msgs = vec![
        ("m1".to_string(), 1_i64, "not json".to_string()),
        ("m2".to_string(), 2_i64, r#"{"role":"user"}"#.to_string()),
        ("m3".to_string(), 3_i64, r#"{}"#.to_string()),
    ];
    let parts = vec![
        ("m1".to_string(), r#"{"type":"text","text":"lost"}"#.to_string()),
        ("m2".to_string(), r#"{"type":"text","text":"   "}"#.to_string()),
        ("m3".to_string(), r#"{"type":"text","text":"kept"}"#.to_string()),
    ];
    let messages = assemble_messages(&msgs, &parts);
    assert_eq!(messages.len(), 1);
    assert_eq!(messages[0].role, "unknown");
    assert_eq!(messages[0].content, "kept");
}

#[test]
fn part_text_by_kind() {
    let text = parse_json(r#"{"type":"text","text":"hi"}"#).unwrap();
    assert_eq!(extract_part_text(&text).as_deref(), Some("hi"));
    let tool = parse_json(r#"{"type":"tool","tool":"bash"}"#).unwrap();
    assert_eq!(extract_part_text(&tool).as_deref(), Some("[Tool: bash]"));
    let other = parse_json(r#"{"type":"step-start"}"#).unwrap();
    assert_eq!(extract_part_text(&other), None);
}

#[test]
fn delete_session_sqlite_rejects_foreign_db_path() {
    let err = check_delete_target("sess_1", "sess_1", "/tmp/foreign.db", "/home/u/.zcode/cli/db/db.sqlite")
        .expect_err("should reject foreign db");
    assert!(err.contains("expected ZCode database"));
}

#[test]
fn delete_session_sqlite_removes_session() {
    assert!(check_delete_target("sess_1", "sess_1", "/db.sqlite", "/db.sqlite").is_ok());
    let err = check_delete_target("sess_1", "sess_2", "/db.sqlite", "/db.sqlite").unwrap_err();
    assert_eq!(err, "ZCode SQLite session ID mismatch: expected sess_1, found sess_2");
}

#[test]
fn listed_source_reference_parses_back() {
    let meta = session_meta(
        "sess_42".to_string(),
        "t".to_string(),
        "/p".to_string(),
        1,
        2,
        "C:/Users/me/.zcode/cli/db/db.sqlite",
        None,
    );
    let source = meta.source_path.unwrap();
    let (db, id) = parse_sqlite_source(&source).unwrap();
    assert_eq!(db, "C:/Users/me/.zcode/cli/db/db.sqlite");
    assert_eq!(id, "sess_42");
}
