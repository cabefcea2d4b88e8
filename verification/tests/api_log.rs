use cc_switch::api_log::{
    compact_body, compact_sse, log_file_name, placeholder, retention_victims, sanitize_header_entries,
    sanitize_headers, ApiLogCapture, ApiLogConfig, ApiLogSwitch, MAX_LOG_FILES,
};
use serde_json::Value;

fn header_map(entries: &[(&str, &str)]) -> http::HeaderMap {
    let mut map = http::HeaderMap::new();
    for (name, value) in entries {
        map.insert(
            http::HeaderName::from_bytes(name.as_bytes()).unwrap(),
            http::HeaderValue::from_str(value).unwrap(),
        );
    }
    map
}

fn get<'a>(headers: &'a [(String, String)], name: &str) -> Option<&'a str> {
    headers.iter().find(|(k, _)| k == name).map(|(_, v)| v.as_str())
}

#[test]
fn sanitize_headers_masks_sensitive_and_keeps_others() {
    let map = header_map(&[
        ("Authorization", "Bearer sk-secret"),
        ("X-Api-Key", "abc123"),
        ("Content-Type", "application/json"),
        ("Anthropic-Version", "2023-06-01"),
    ]);
    let sanitized = sanitize_headers(&map);
    assert_eq!(get(&sanitized, "authorization"), Some("***"));
    assert_eq!(get(&sanitized, "x-api-key"), Some("***"));
    assert_eq!(get(&sanitized, "content-type"), Some("application/json"));
    assert_eq!(get(&sanitized, "anthropic-version"), Some("2023-06-01"));
}

#[test]
fn sanitize_headers_joins_multi_value() {
    let mut map = http::HeaderMap::new();
    map.append(
        http::HeaderName::from_static("x-forwarded-for"),
        http::HeaderValue::from_static("1.1.1.1"),
    );
    map.append(
        http::HeaderName::from_static("x-forwarded-for"),
        http::HeaderValue::from_static("2.2.2.2"),
    );
    let sanitized = sanitize_headers(&map);
    assert_eq!(get(&sanitized, "x-forwarded-for"), Some("1.1.1.1, 2.2.2.2"));
}

#[test]
fn sanitize_entries_masks_every_sensitive_name() {
    let entries: Vec<(String, String)> = [
        ("cookie", "a=b"),
        ("set-cookie", "c=d"),
        ("proxy-authorization", "Basic x"),
        ("api-key", "k"),
        ("x-goog-api-key", "g"),
        ("accept", "*/*"),
    ]
    .iter()
    .map(|(k, v)| (k.to_string(), v.to_string()))
    .collect();
    let out = sanitize_header_entries(&entries);
    for name in ["cookie", "set-cookie", "proxy-authorization", "api-key", "x-goog-api-key"] {
        assert_eq!(get(&out, name), Some("***"), "{name}");
    }
    assert_eq!(get(&out, "accept"), Some("*/*"));
}

#[test]
fn api_log_config_defaults_to_disabled() {
    let config = ApiLogConfig::default();
    assert!(!config.enabled);
    let mut switch = ApiLogSwitch::new();
    assert!(!switch.is_enabled());
    switch.set_enabled(true);
    assert!(switch.is_enabled());
    assert_eq!(MAX_LOG_FILES, 200);
}

#[test]
fn capture_records_full_request_lifecycle() {
    let mut capture = ApiLogCapture::new(
        "req-1234567890".to_string(),
        "anthropic".to_string(),
        "model-sonnet-4".to_string(),
    );
    capture.record_received(
        "POST",
        "/v1/messages",
        &header_map(&[("Authorization", "Bearer sk-live")]),
        br#"{"model":"model-sonnet-4","stream":true}"#,
    );
    capture.record_forward_request(
        "provider-1",
        "中转 A",
        "https://gw.example.com/v1/messages",
        "POST",
        &header_map(&[("X-Api-Key", "upstream-key")]),
        br#"{"model":"gpt-5.6","stream":true}"#,
    );
    capture.record_forward_response_head(200, &header_map(&[("Content-Type", "text/event-stream")]), true);
    capture.record_forward_response_body(b"data: {\"type\":\"message_start\"}\n\n");
    capture.record_final(None, b"", "passthrough: body identical to last forward response");

    let received = capture.received.as_ref().unwrap();
    assert_eq!(received.method, "POST");
    assert_eq!(received.endpoint, "/v1/messages");
    assert!(received.body.contains("model-sonnet-4"));
    assert_eq!(get(&received.headers, "authorization"), Some("***"));

    assert_eq!(capture.forwards.len(), 1);
    let forward = &capture.forwards[0];
    assert_eq!(forward.attempt, 1);
    assert_eq!(forward.provider_name, "中转 A");
    assert!(forward.request.body.contains("gpt-5.6"));
    assert_eq!(get(&forward.request.headers, "x-api-key"), Some("***"));
    assert_eq!(forward.response.status, Some(200));
    assert!(forward.response.body.contains("message_start"));
    assert!(forward.response.is_stream);

    let final_log = capture.final_response.as_ref().unwrap();
    assert!(final_log.note.contains("passthrough"));

    let file = capture.flush().expect("first flush writes");
    assert_eq!(file.request_id, "req-1234567890");
    assert_eq!(file.forwards.len(), 1);
    assert!(capture.flush().is_none(), "second flush writes nothing");
}

#[test]
fn capture_failed_forward_keeps_request_without_response() {
    let mut capture = ApiLogCapture::new("req-fail".into(), "codex".into(), "gpt-5.6".into());
    capture.record_forward_request(
        "provider-1",
        "P1",
        "https://gw.example.com/v1/responses",
        "POST",
        &http::HeaderMap::new(),
        b"{}",
    );
    assert_eq!(capture.forwards.len(), 1);
    assert_eq!(capture.forwards[0].response.status, None);
    assert!(capture.final_response.is_none());
}

#[test]
fn response_body_without_forward_is_ignored() {
    let mut capture = ApiLogCapture::new("r".into(), "codex".into(), "m".into());
    capture.record_forward_response_head(500, &http::HeaderMap::new(), false);
    capture.record_forward_response_body(b"oops");
    assert!(capture.forwards.is_empty());
}

#[test]
fn log_file_names_use_short_lowercase_id() {
    assert_eq!(log_file_name("20260101_000000", "REQ-ABCDEFGH"), "20260101_000000_req-abcd.json");
    assert_eq!(log_file_name("s", "Ab"), "s_ab.json");
}

#[test]
fn compact_body_strips_message_content_but_keeps_config_fields() {
    let body = r#"{
        "model": "model-opus-4-8",
        "max_tokens": 32000,
        "stream": true,
        "thinking": {"type": "adaptive"},
        "system": [{"type": "text", "text": "You are a coding agent...", "cache_control": {"type": "ephemeral"}}],
        "messages": [
            {"role": "user", "content": "hello world, this is the full conversation text"},
            {"role": "assistant", "content": [
                {"type": "thinking", "thinking": "internal reasoning...", "signature": "sig-abc"},
                {"type": "text", "text": "assistant answer", "cache_control": {"type": "ephemeral"}},
                {"type": "tool_use", "id": "toolu_1", "name": "Bash", "input": {"command": "ls"}}
            ]},
            {"role": "user", "content": [
                {"type": "tool_result", "tool_use_id": "toolu_1", "content": [{"type": "text", "text": "file listing output"}]}
            ]}
        ],
        "tools": [
            {"name": "Bash", "description": "Runs a bash command", "input_schema": {"type": "object", "properties": {"command": {"type": "string"}}}}
        ]
    }"#;
    let compact = compact_body(body);
    let parsed: Value = serde_json::from_str(&compact).unwrap();

    assert_eq!(parsed["model"], "model-opus-4-8");
    assert_eq!(parsed["max_tokens"], 32000);
    assert_eq!(parsed["thinking"]["type"], "adaptive");
    assert_eq!(parsed["tools"][0]["name"], "Bash");

    let user_text = parsed["messages"][0]["content"].as_str().unwrap();
    assert!(user_text.starts_with("<omitted "), "{user_text}");
    assert_eq!(user_text, "<omitted 47 chars>");
    assert!(parsed["messages"][1]["content"][0]["thinking"].as_str().unwrap().starts_with("<omitted"));
    assert!(parsed["messages"][2]["content"][0]["content"][0]["text"].as_str().unwrap().starts_with("<omitted"));
    assert!(parsed["system"][0]["text"].as_str().unwrap().starts_with("<omitted"));
    assert!(parsed["tools"][0]["description"].as_str().unwrap().starts_with("<omitted"));
    assert!(parsed["tools"][0]["input_schema"].as_str().unwrap().starts_with("<omitted"));

    assert_eq!(parsed["messages"][1]["content"][1]["type"], "text");
    assert_eq!(parsed["messages"][1]["content"][2]["name"], "Bash");
    assert_eq!(parsed["messages"][1]["content"][1]["cache_control"]["type"], "ephemeral");
    assert_eq!(parsed["system"][0]["cache_control"]["type"], "ephemeral");
}

#[test]
fn compact_body_sse_keeps_events_and_usage_but_folds_deltas() {
    let sse = "event: message_start\n\
               data: {\"type\":\"message_start\",\"message\":{\"model\":\"model-opus-4-8\",\"content\":[{\"type\":\"text\",\"text\":\"\"}],\"usage\":{\"input_tokens\":100}}}\n\
               \n\
               event: content_block_delta\n\
               data: {\"type\":\"content_block_delta\",\"index\":0,\"delta\":{\"type\":\"text_delta\",\"text\":\"the full model output\"}}\n\
               data: {\"type\":\"content_block_delta\",\"index\":0,\"delta\":{\"type\":\"text_delta\",\"text\":\" continues here\"}}\n\
               \n\
               event: message_delta\n\
               data: {\"type\":\"message_delta\",\"delta\":{\"stop_reason\":\"end_turn\"},\"usage\":{\"output_tokens\":42}}\n\
               \n\
               data: [DONE]\n";
    let compact = compact_sse(sse);
    let data_lines: Vec<&str> = compact
        .lines()
        .filter(|l| l.starts_with("data: ") && !l.contains("[DONE]"))
        .collect();
    assert_eq!(data_lines.len(), 3);

    let start: Value = serde_json::from_str(data_lines[0].trim_start_matches("data: ")).unwrap();
    assert_eq!(start["message"]["usage"]["input_tokens"], 100);
    assert_eq!(start["message"]["model"], "model-opus-4-8");

    let summary: Value = serde_json::from_str(data_lines[1].trim_start_matches("data: ")).unwrap();
    assert_eq!(summary["type"], "_delta_summary");
    assert_eq!(summary["delta_type"], "text_delta");
    assert_eq!(summary["events"], 2);
    assert_eq!(summary["omitted_chars"], 36);

    let end: Value = serde_json::from_str(data_lines[2].trim_start_matches("data: ")).unwrap();
    assert_eq!(end["delta"]["stop_reason"], "end_turn");
    assert_eq!(end["usage"]["output_tokens"], 42);

    assert!(compact.contains("event: message_start"));
    assert!(compact.contains("data: [DONE]"));
    assert!(!compact.contains("event: content_block_delta"));
}

#[test]
fn compact_body_sse_handles_data_without_space() {
    let sse = "data:{\"type\":\"content_block_delta\",\"index\":1,\"delta\":{\"type\":\"thinking_delta\",\"thinking\":\"long reasoning\"}}\n";
    let compact = compact_body(sse);
    let payload: Value = serde_json::from_str(compact.trim_start_matches("data: ")).unwrap();
    assert_eq!(payload["type"], "_delta_summary");
    assert_eq!(payload["index"], 1);
    assert_eq!(payload["delta_type"], "thinking_delta");
    assert_eq!(payload["omitted_chars"], 14);
}

#[test]
fn compact_body_passthrough_non_json() {
    assert_eq!(compact_body("plain error page"), "plain error page");
    assert_eq!(compact_body(""), "");
}

#[test]
fn compact_body_handles_image_block_base64() {
    let body = r#"{"messages":[{"role":"user","content":[
        {"type":"image","source":{"type":"base64","media_type":"image/png","data":"aGVsbG8gd29ybGQg"}}]}]}"#;
    let compact = compact_body(body);
    let parsed: Value = serde_json::from_str(&compact).unwrap();
    let source = &parsed["messages"][0]["content"][0]["source"];
    assert_eq!(source["media_type"], "image/png");
    assert!(source["data"].as_str().unwrap().starts_with("<omitted"));
}

#[test]
fn placeholder_counts_characters() {
    assert_eq!(placeholder("héllo"), "<omitted 5 chars>");
    assert_eq!(placeholder(""), "<omitted 0 chars>");
}

#[test]
fn retention_removes_oldest_files() {
    let mut names: Vec<String> = (0..5).map(|i| format!("20260101_00000{i}.json")).collect();
    names.push("notes.txt".to_string());
    names.reverse();
    let mut victims = retention_victims(&names, 3);
    victims.sort();
    assert_eq!(
        victims,
        vec!["20260101_000000.json".to_string(), "20260101_000001.json".to_string()]
    );
    let mut remaining: Vec<String> = names.into_iter().filter(|n| !victims.contains(n)).collect();
    remaining.sort();
    assert_eq!(
        remaining,
        vec![
            "20260101_000002.json".to_string(),
            "20260101_000003.json".to_string(),
            "20260101_000004.json".to_string(),
            "notes.txt".to_string(),
        ]
    );
}

#[test]
fn retention_keeps_everything_under_the_limit() {
    let names = vec!["a.json".to_string(), "b.json".to_string(), "c.txt".to_string()];
    assert!(retention_victims(&names, 2).is_empty());
    assert_eq!(retention_victims(&names, 1), vec!["a.json".to_string()]);
    assert_eq!(retention_victims(&names, 0).len(), 2);
}

#[test]
fn repeated_sensitive_headers_stay_masked() {
    let mut map = http::HeaderMap::new();
    map.append(http::HeaderName::from_static("cookie"), http::HeaderValue::from_static("a=1"));
    map.append(http::HeaderName::from_static("cookie"), http::HeaderValue::from_static("b=2"));
    let sanitized = sanitize_headers(&map);
    assert_eq!(get(&sanitized, "cookie"), Some("***, ***"));
}

#[test]
fn sanitized_header_names_are_sorted() {
    let entries: Vec<(String, String)> = [
        ("X-Trace", "1"),
        ("accept", "*/*"),
        ("Content-Type", "a/b"),
        ("accept", "text/plain"),
        ("Authorization", "secret"),
    ]
    .iter()
    .map(|(k, v)| (k.to_string(), v.to_string()))
    .collect();
    let out = sanitize_header_entries(&entries);
    let names: Vec<&str> = out.iter().map(|(k, _)| k.as_str()).collect();
    assert_eq!(names, vec!["accept", "authorization", "content-type", "x-trace"]);
    assert_eq!(get(&out, "accept"), Some("*/*, text/plain"));
    assert_eq!(get(&out, "authorization"), Some("***"));
}
