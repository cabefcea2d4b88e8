use cc_switch::json::{parse_json, JsonValue};
use cc_switch::responses_chat::ResponsesToChatState;
use serde_json::Value;

fn j(text: &str) -> JsonValue {
    parse_json(text).unwrap()
}

fn usage_of(usage: Option<JsonValue>) -> JsonValue {
    match usage {
        Some(u) => {
            let n = |k: &str| u.get(k).and_then(|v| v.as_u64()).unwrap_or(0);
            j(&format!(
                r#"{{"prompt_tokens":{},"completion_tokens":{},"total_tokens":{}}}"#,
                n("input_tokens"),
                n("output_tokens"),
                n("total_tokens")
            ))
        }
        None => JsonValue::Null,
    }
}

fn handle(state: &mut ResponsesToChatState, event: &str, data: &str) -> Vec<String> {
    state.handle_event(event, &j(data), &usage_of)
}

fn parse_chunks(chunks: &[String]) -> Vec<Value> {
    let mut values = Vec::new();
    for chunk in chunks {
        for line in chunk.lines() {
            if let Some(data) = line.strip_prefix("data: ") {
                if data.trim() == "[DONE]" {
                    continue;
                }
                values.push(serde_json::from_str(data).expect("parse chunk json"));
            }
        }
    }
    values
}

fn empty_array() -> Value {
    Value::Array(Vec::new())
}

#[test]
fn text_delta_stream_produces_chat_chunks() {
    let mut state = ResponsesToChatState::new();
    let mut out = Vec::new();
    out.extend(handle(
        &mut state,
        "response.created",
        r#"{"type":"response.created","response":{"id":"resp_1","model":"glm-5.3","created_at":100}}"#,
    ));
    out.extend(handle(&mut state, "response.output_text.delta", r#"{"type":"response.output_text.delta","delta":"Hello"}"#));
    out.extend(handle(&mut state, "response.output_text.delta", r#"{"type":"response.output_text.delta","delta":" world"}"#));
    out.extend(handle(
        &mut state,
        "response.completed",
        r#"{"type":"response.completed","response":{"id":"resp_1","status":"completed","usage":{"input_tokens":3,"output_tokens":4,"total_tokens":7}}}"#,
    ));

    let chunks = parse_chunks(&out);
    assert_eq!(chunks.len(), 5, "role + 2 deltas + finish + usage");
    assert_eq!(chunks[0]["choices"][0]["delta"]["role"], "assistant");
    assert_eq!(chunks[1]["choices"][0]["delta"]["content"], "Hello");
    assert_eq!(chunks[2]["choices"][0]["delta"]["content"], " world");
    assert_eq!(chunks[3]["choices"][0]["finish_reason"], "stop");
    assert_eq!(chunks[4]["choices"], empty_array());
    assert_eq!(chunks[4]["usage"]["prompt_tokens"], 3);
    assert_eq!(chunks[1]["id"], "resp_1");
    assert_eq!(chunks[1]["model"], "glm-5.3");
    assert_eq!(chunks[1]["created"], 100);
    assert!(out.last().unwrap().contains("[DONE]"));
}

#[test]
fn completed_emits_usage_chunk() {
    let mut state = ResponsesToChatState::new();
    let out = handle(
        &mut state,
        "response.completed",
        r#"{"type":"response.completed","response":{"status":"completed","usage":{"input_tokens":5,"output_tokens":6,"total_tokens":11}}}"#,
    );
    let chunks = parse_chunks(&out);
    assert_eq!(chunks.len(), 2);
    assert_eq!(chunks[1]["choices"], empty_array());
    assert_eq!(chunks[1]["usage"]["prompt_tokens"], 5);
    assert_eq!(chunks[1]["usage"]["completion_tokens"], 6);
}

#[test]
fn function_call_lifecycle_maps_tool_calls() {
    let mut state = ResponsesToChatState::new();
    let mut out = Vec::new();
    out.extend(handle(
        &mut state,
        "response.output_item.added",
        r#"{"type":"response.output_item.added","output_index":1,"item":{"type":"function_call","id":"fc_1","call_id":"call_abc","name":"get_weather","arguments":""}}"#,
    ));
    out.extend(handle(
        &mut state,
        "response.function_call_arguments.delta",
        r#"{"type":"response.function_call_arguments.delta","output_index":1,"delta":"{\"ci"}"#,
    ));
    out.extend(handle(
        &mut state,
        "response.function_call_arguments.delta",
        r#"{"type":"response.function_call_arguments.delta","output_index":1,"delta":"ty\":\"sz\"}"}"#,
    ));
    out.extend(handle(
        &mut state,
        "response.output_item.done",
        r#"{"type":"response.output_item.done","output_index":1,"item":{"type":"function_call","id":"fc_1","call_id":"call_abc","name":"get_weather","arguments":"{\"city\":\"sz\"}"}}"#,
    ));
    out.extend(handle(&mut state, "response.completed", r#"{"type":"response.completed","response":{"status":"completed"}}"#));

    let chunks = parse_chunks(&out);
    let first = &chunks[0]["choices"][0]["delta"]["tool_calls"][0];
    assert_eq!(first["id"], "call_abc");
    assert_eq!(first["function"]["name"], "get_weather");
    assert_eq!(chunks[1]["choices"][0]["delta"]["tool_calls"][0]["function"]["arguments"], "{\"ci");
    assert_eq!(chunks[2]["choices"][0]["delta"]["tool_calls"][0]["function"]["arguments"], "ty\":\"sz\"}");
    assert_eq!(chunks[3]["choices"][0]["finish_reason"], "tool_calls");
    assert_eq!(state.tool_calls_started(), 1);
}

#[test]
fn multiple_function_calls_get_sequential_indices() {
    let mut state = ResponsesToChatState::new();
    let mut out = Vec::new();
    for (output_index, call_id) in [(0u64, "call_a"), (1u64, "call_b")] {
        out.extend(handle(
            &mut state,
            "response.output_item.added",
            &format!(
                r#"{{"type":"response.output_item.added","output_index":{output_index},"item":{{"type":"function_call","call_id":"{call_id}","name":"f","arguments":""}}}}"#
            ),
        ));
    }
    let chunks = parse_chunks(&out);
    assert_eq!(chunks[0]["choices"][0]["delta"]["tool_calls"][0]["index"], 0);
    assert_eq!(chunks[1]["choices"][0]["delta"]["tool_calls"][0]["index"], 1);
}

#[test]
fn reasoning_delta_supports_standard_and_bigmodel_event_names() {
    let mut state = ResponsesToChatState::new();
    let standard = handle(
        &mut state,
        "response.reasoning_summary_text.delta",
        r#"{"type":"response.reasoning_summary_text.delta","delta":"thinking"}"#,
    );
    assert_eq!(parse_chunks(&standard)[0]["choices"][0]["delta"]["reasoning_content"], "thinking");

    let mut state = ResponsesToChatState::new();
    let bigmodel = handle(&mut state, "response.reasoning_text.delta", r#"{"type":"response.reasoning_text.delta","delta":"hmm"}"#);
    assert_eq!(parse_chunks(&bigmodel)[0]["choices"][0]["delta"]["reasoning_content"], "hmm");
}

#[test]
fn incomplete_maps_to_length_finish() {
    let mut state = ResponsesToChatState::new();
    let out = handle(
        &mut state,
        "response.incomplete",
        r#"{"type":"response.incomplete","response":{"status":"incomplete","incomplete_details":{"reason":"max_output_tokens"}}}"#,
    );
    let chunks = parse_chunks(&out);
    assert_eq!(chunks[0]["choices"][0]["finish_reason"], "length");
}

#[test]
fn failed_and_error_events_close_the_stream() {
    let mut state = ResponsesToChatState::new();
    let out = handle(&mut state, "response.failed", r#"{"type":"response.failed","response":{"error":{"message":"boom"}}}"#);
    let chunks = parse_chunks(&out);
    assert_eq!(chunks[0]["choices"][0]["finish_reason"], "stop");
    assert!(out.last().unwrap().contains("[DONE]"));

    let mut state = ResponsesToChatState::new();
    let out = handle(&mut state, "error", r#"{"type":"error","message":"bad"}"#);
    assert!(out.last().unwrap().contains("[DONE]"));
}

#[test]
fn finalizing_twice_emits_nothing_more() {
    let mut state = ResponsesToChatState::new();
    let first = handle(&mut state, "response.completed", r#"{"type":"response.completed","response":{"status":"completed"}}"#);
    assert!(first.last().unwrap().contains("[DONE]"));
    assert!(state.finalize_chunks("stop").is_empty());
    assert!(handle(&mut state, "response.failed", r#"{"type":"response.failed"}"#).is_empty());
}

#[test]
fn lone_nameless_function_call_fails_closed() {
    let mut state = ResponsesToChatState::new();
    handle(
        &mut state,
        "response.output_item.added",
        r#"{"type":"response.output_item.added","output_index":0,"item":{"type":"function_call","call_id":"c1","arguments":""}}"#,
    );
    let out = handle(
        &mut state,
        "response.output_item.done",
        r#"{"type":"response.output_item.done","output_index":0,"item":{"type":"function_call","call_id":"c1","arguments":"{}"}}"#,
    );
    let finish = handle(&mut state, "response.completed", r#"{"type":"response.completed","response":{"status":"completed"}}"#);
    let text: String = out.into_iter().chain(finish).collect();
    assert!(text.contains("without a name"), "text: {text}");
    assert_eq!(state.tool_calls_dropped(), 1);
}

#[test]
fn stream_without_created_event_synthesizes_role_chunk() {
    let mut state = ResponsesToChatState::new();
    let out = handle(&mut state, "response.output_text.delta", r#"{"type":"response.output_text.delta","delta":"hi"}"#);
    let chunks = parse_chunks(&out);
    assert_eq!(chunks[0]["choices"][0]["delta"]["content"], "hi");
    assert_eq!(chunks[0]["object"], "chat.completion.chunk");
}

#[test]
fn end_to_end_stream_conversion() {
    let mut state = ResponsesToChatState::new();
    let mut out = Vec::new();
    out.extend(state.handle_sse_data(
        Some("response.created"),
        r#"{"type":"response.created","response":{"id":"resp_9","model":"glm-5.3","created_at":42}}"#,
        &usage_of,
    ));
    out.extend(state.handle_sse_data(
        Some("response.output_text.delta"),
        r#"{"type":"response.output_text.delta","delta":"你好"}"#,
        &usage_of,
    ));
    out.extend(state.handle_sse_data(
        Some("response.completed"),
        r#"{"type":"response.completed","response":{"status":"completed","usage":{"input_tokens":1,"output_tokens":2,"total_tokens":3}}}"#,
        &usage_of,
    ));
    out.extend(state.handle_sse_data(None, "[DONE]", &usage_of));
    let text: String = out.concat();
    assert!(text.contains("\"role\":\"assistant\""));
    assert!(text.contains("你好"));
    assert!(text.contains("\"finish_reason\":\"stop\""));
    assert!(text.contains("\"prompt_tokens\":1"));
    assert!(text.contains("[DONE]"));
}
