//! Server-sent events.
use claude_agent_rust_sdk::error::ClaudeError;
use claude_agent_rust_sdk::streaming::{parse_sse_line, sse_data, LineBuffer};
use claude_agent_rust_sdk::transport::{
    after_poll, before_poll, poll_limit, unsupported, PollStep, POLL_TIMEOUT_MS,
};
use claude_agent_rust_sdk::types::batch::{BatchRequestCounts, BatchResponse, BatchStatus};
use serde_json::Value;

fn event(line: &str) -> Value {
    parse_sse_line(line).unwrap().unwrap()
}

#[test]
fn parse_sse_line_empty() {
    assert!(parse_sse_line("").is_none());
    assert!(parse_sse_line("  ").is_none());
}

#[test]
fn parse_sse_line_comment() {
    assert!(parse_sse_line(": keep-alive").is_none());
}

#[test]
fn parse_sse_line_event_line() {
    assert!(parse_sse_line("event: message_start").is_none());
}

#[test]
fn parse_sse_line_done_sentinel() {
    assert!(parse_sse_line("data: [DONE]").is_none());
}

#[test]
fn parse_sse_line_ping() {
    let result = parse_sse_line("data: {\"type\": \"ping\"}");
    assert!(result.is_some());
    let event = result.unwrap().unwrap();
    assert_eq!(event["type"], "ping");
}

#[test]
fn parse_sse_line_content_block_start() {
    let e = event(
        r#"data: {"type": "content_block_start", "index": 0, "content_block": {"type": "text", "text": ""}}"#,
    );
    assert_eq!(e["type"], "content_block_start");
    assert_eq!(e["index"], 0);
    assert_eq!(e["content_block"]["type"], "text");
}

#[test]
fn parse_sse_line_text_delta() {
    let e = event(
        r#"data: {"type": "content_block_delta", "index": 0, "delta": {"type": "text_delta", "text": "Hello"}}"#,
    );
    assert_eq!(e["delta"]["type"], "text_delta");
    assert_eq!(e["delta"]["text"], "Hello");
}

#[test]
fn parse_sse_line_input_json_delta() {
    let e = event(
        r#"data: {"type": "content_block_delta", "index": 1, "delta": {"type": "input_json_delta", "partial_json": "{\"loc\": \"SF\"}"}}"#,
    );
    assert_eq!(e["delta"]["type"], "input_json_delta");
    assert!(e["delta"]["partial_json"].as_str().unwrap().contains("SF"));
}

#[test]
fn parse_sse_line_thinking_delta() {
    let e = event(
        r#"data: {"type": "content_block_delta", "index": 0, "delta": {"type": "thinking_delta", "thinking": "Let me think..."}}"#,
    );
    assert_eq!(e["delta"]["thinking"], "Let me think...");
}

#[test]
fn parse_sse_line_signature_delta() {
    let e = event(
        r#"data: {"type": "content_block_delta", "index": 0, "delta": {"type": "signature_delta", "signature": "EqQB"}}"#,
    );
    assert_eq!(e["delta"]["signature"], "EqQB");
}

#[test]
fn parse_sse_line_content_block_stop() {
    let e = event(r#"data: {"type": "content_block_stop", "index": 0}"#);
    assert_eq!(e["type"], "content_block_stop");
    assert_eq!(e["index"], 0);
}

#[test]
fn parse_sse_line_message_delta() {
    let e = event(
        r#"data: {"type": "message_delta", "delta": {"stop_reason": "end_turn", "stop_sequence": null}, "usage": {"output_tokens": 15}}"#,
    );
    assert_eq!(e["delta"]["stop_reason"], "end_turn");
    assert_eq!(e["usage"]["output_tokens"], 15);
}

#[test]
fn parse_sse_line_message_stop() {
    let e = event(r#"data: {"type": "message_stop"}"#);
    assert_eq!(e["type"], "message_stop");
}

#[test]
fn parse_sse_line_error_event() {
    let e = event(
        r#"data: {"type": "error", "error": {"type": "overloaded_error", "message": "Overloaded"}}"#,
    );
    assert_eq!(e["error"]["type"], "overloaded_error");
}

#[test]
fn parse_sse_line_malformed_json() {
    let line = r#"data: {not valid json}"#;
    let result = parse_sse_line(line);
    assert!(result.is_some());
    assert!(matches!(
        result.unwrap(),
        Err(ClaudeError::SerializationError(_))
    ));
}

#[test]
fn data_needs_a_blank_and_loses_the_white_space_around_it() {
    assert_eq!(sse_data("  data: x \r\n").as_deref(), Some("x"));
    assert_eq!(sse_data("data:x"), None);
    assert_eq!(sse_data("id: 5"), None);
    assert_eq!(sse_data("data: "), None, "the blank is trimmed away");
}

fn drain(buffer: &mut LineBuffer, out: &mut Vec<String>) {
    while let Some(line) = buffer.next_buffered_line() {
        if !line.is_empty() {
            out.push(line);
        }
    }
}

#[test]
fn chunks_do_not_matter() {
    let text = "event: a\ndata: {\"x\":1}\n\ndata: 2\ntail";
    let expected = vec!["event: a", "data: {\"x\":1}", "data: 2", "tail"];
    for size in 1..text.len() + 1 {
        let mut buffer = LineBuffer::new();
        let mut lines = Vec::new();
        for chunk in text.as_bytes().chunks(size) {
            buffer.push_chunk(chunk);
            drain(&mut buffer, &mut lines);
        }
        assert!(buffer.finish());
        drain(&mut buffer, &mut lines);
        assert_eq!(lines, expected, "in chunks of {size}");
        assert!(!buffer.finish());
    }
}

#[test]
fn buffers_hold_incomplete_lines_back() {
    let mut buffer = LineBuffer::new();
    buffer.push_text("a\nb");
    assert_eq!(buffer.next_buffered_line().as_deref(), Some("a"));
    assert_eq!(buffer.next_buffered_line(), None);
    buffer.push_chunk(b"c\xFF\n");
    assert_eq!(buffer.next_buffered_line().as_deref(), Some("bc\u{FFFD}"));
    assert_eq!(buffer.next_buffered_line().as_deref(), Some(""));
    assert_eq!(buffer.next_buffered_line(), None);
    assert!(!buffer.finish());
}

fn batch(status: BatchStatus) -> BatchResponse {
    BatchResponse {
        id: "b".to_string(),
        batch_type: None,
        processing_status: status,
        request_counts: BatchRequestCounts {
            processing: 0,
            succeeded: 1,
            errored: 0,
            canceled: 0,
            expired: 0,
        },
        ended_at: None,
        created_at: "2024-01-01T00:00:00Z".to_string(),
        expires_at: "2024-01-02T00:00:00Z".to_string(),
        results_url: None,
        cancel_initiated_at: None,
        archived_at: None,
    }
}

#[test]
fn batches_are_polled_for_a_day_at_most() {
    assert_eq!(poll_limit(0), POLL_TIMEOUT_MS);
    assert_eq!(poll_limit(1), POLL_TIMEOUT_MS);
    assert_eq!(poll_limit(60_000), 1440);
    assert_eq!(poll_limit(86_400_000), 1);
    assert_eq!(poll_limit(86_400_001), 0);
    assert_eq!(poll_limit(u128::MAX), 0);
    assert!(matches!(before_poll("b", 0, 1), PollStep::Retrieve));
    match before_poll("b", 1, 1) {
        PollStep::GiveUp(ClaudeError::BatchTimeout { batch_id }) => assert_eq!(batch_id, "b"),
        other => panic!("unexpected {other:?}"),
    }
    assert!(matches!(
        after_poll(batch(BatchStatus::Canceling)),
        PollStep::Wait
    ));
    assert!(matches!(
        after_poll(batch(BatchStatus::InProgress)),
        PollStep::Wait
    ));
    match after_poll(batch(BatchStatus::Ended)) {
        PollStep::Done(b) => assert_eq!(b.id, "b"),
        other => panic!("unexpected {other:?}"),
    }
}

#[test]
fn missing_operations_are_named() {
    match unsupported("create_message") {
        ClaudeError::Unsupported(m) => assert_eq!(m, "create_message"),
        other => panic!("unexpected {other:?}"),
    }
}
