//! Imports of transcripts.
use claude_agent_rust_sdk::error::ClaudeError;
use claude_agent_rust_sdk::sessions::import::{
    agent_metadata_entry, import_project_key, meta_sidecar_path, relative_subpath, ImportBatch,
};
use claude_agent_rust_sdk::sessions::jsonl::{parse_object_lines, text_of_entries};
use claude_agent_rust_sdk::sessions::key::file_path_to_session_key;
use claude_agent_rust_sdk::sessions::mirror::MAX_PENDING_BYTES;
use claude_agent_rust_sdk::sessions::mutations::require_uuid;
use claude_agent_rust_sdk::sessions::resume::split_subagent_entries;
use serde_json::Value;

#[test]
fn import_invalid_uuid_errors() {
    let err = require_uuid("nope").unwrap_err();
    assert!(matches!(err, ClaudeError::InvalidConfig(_)));
}

#[test]
fn import_main_transcript_batching() {
    let mut batch = ImportBatch::new(2);
    let mut sizes = Vec::new();
    for i in 0..5 {
        let line = format!(r#"{{"type":"user","uuid":"u{i}","message":{{"content":{i}}}}}"#);
        if let Some(list) = batch.push_line(&line).unwrap() {
            sizes.push(list.len());
        }
    }
    let rest = batch.finish().unwrap();
    assert_eq!(rest[0].get("uuid").and_then(Value::as_str), Some("u4"));
    sizes.push(rest.len());
    assert_eq!(sizes, vec![2, 2, 1]);
}

#[test]
fn batches_are_cut_by_size_too_and_pass_over_empty_lines() {
    let long = format!(r#"{{"x":"{}"}}"#, "y".repeat(MAX_PENDING_BYTES));
    let mut batch = ImportBatch::new(0);
    assert!(batch.push_line("").unwrap().is_none());
    assert!(batch.push_line(" \t\r").unwrap().is_none());
    assert!(batch.push_line("{}").unwrap().is_none());
    assert_eq!(batch.push_line(&long).unwrap().map(|l| l.len()), Some(2));
    assert!(batch.finish().is_none());
    let mut counted = ImportBatch::new(0);
    for _ in 0..499 {
        assert!(counted.push_line("{}").unwrap().is_none());
    }
    assert_eq!(counted.push_line("{}").unwrap().map(|l| l.len()), Some(500));
}

#[test]
fn import_non_object_line_fails_visibly() {
    let mut batch = ImportBatch::new(0);
    assert!(batch.push_line(r#"{"type":"user","uuid":"u0"}"#).is_ok());
    let err = batch.push_line("42").unwrap_err();
    assert!(
        matches!(err, ClaudeError::MessageParse { .. }),
        "non-object JSONL line must route to MessageParse, got {err:?}"
    );
    assert!(matches!(
        batch.push_line("{ not json"),
        Err(ClaudeError::SerializationError(_))
    ));
}

#[test]
fn import_scalar_sidecar_fails_visibly() {
    let err = agent_metadata_entry("42", "/a/agent-abc.meta.json").unwrap_err();
    match err {
        ClaudeError::MessageParse { message, data } => {
            assert_eq!(
                message,
                "agent metadata sidecar /a/agent-abc.meta.json is not a JSON object"
            );
            assert_eq!(data, Some(Value::from(42)));
        }
        other => panic!("scalar sidecar must route to MessageParse, got {other:?}"),
    }
    assert!(matches!(
        agent_metadata_entry("{", "m"),
        Err(ClaudeError::SerializationError(_))
    ));
}

#[test]
fn sidecars_survive_the_store() {
    let e = agent_metadata_entry(r#"{"agentType":"researcher","worktreePath":"/wt"}"#, "m").unwrap();
    assert_eq!(e.get("type").unwrap(), "agent_metadata");
    assert_eq!(e.get("agentType").unwrap(), "researcher");
    let files = split_subagent_entries(&vec![e]);
    assert!(files.transcript.is_empty());
    let fields = files.metadata.unwrap();
    assert_eq!(fields.len(), 2);
    assert_eq!(fields.get("worktreePath").unwrap(), "/wt");
}

#[test]
fn relative_subpath_strips_jsonl_and_joins_slash() {
    let session_dir = "/proj/sess";
    let file = "/proj/sess/subagents/workflows/run-1/agent-x.jsonl";
    assert_eq!(
        relative_subpath(session_dir, file).as_deref(),
        Some("subagents/workflows/run-1/agent-x")
    );
}

#[test]
fn subpaths_need_a_file_below_the_session() {
    assert_eq!(relative_subpath("/proj/sess", "/proj/other/x.jsonl"), None);
    assert_eq!(relative_subpath("/proj/sess", "/proj/sess"), None);
    assert_eq!(
        relative_subpath("/proj/sess", "/proj/sess/notes.txt").as_deref(),
        Some("notes.txt")
    );
}

#[test]
fn meta_sidecar_path_derivation() {
    let file = "/a/agent-x.jsonl";
    assert_eq!(meta_sidecar_path(file), "/a/agent-x.meta.json");
}

#[test]
fn sidecars_of_other_files() {
    assert_eq!(meta_sidecar_path("agent-x"), "agent-x.meta.json");
    assert_eq!(meta_sidecar_path("/a/b/"), "/a/b.meta.json");
    assert_eq!(meta_sidecar_path("/"), "/.meta.json");
}

#[test]
fn imported_sessions_have_the_keys_of_mirrored_ones() {
    let file = "/cfg/projects/-work/abc-123.jsonl";
    let key = file_path_to_session_key(file, "/cfg/projects").unwrap();
    assert_eq!(import_project_key("abc-123", file).unwrap(), key.project_key);
    let sub = "/cfg/projects/-work/abc-123/subagents/agent-7.jsonl";
    let sub_key = file_path_to_session_key(sub, "/cfg/projects").unwrap();
    assert_eq!(
        relative_subpath("/cfg/projects/-work/abc-123", sub),
        sub_key.subpath
    );
    match import_project_key("s", "/x.jsonl").unwrap_err() {
        ClaudeError::TransportError(m) => {
            assert_eq!(m, "Session s resolved to a path with no project directory")
        }
        other => panic!("unexpected {other:?}"),
    }
}

#[test]
fn written_entries_are_read_back() {
    let entries = parse_object_lines("{\"a\":1}\n[2]\nbad\n{\"b\":{\"c\":[null,true,\"x\"]}}\n");
    assert_eq!(entries.len(), 2);
    let text = text_of_entries(&entries);
    assert_eq!(text, "{\"a\":1}\n{\"b\":{\"c\":[null,true,\"x\"]}}\n");
    assert_eq!(parse_object_lines(&text), entries);
    let mut batch = ImportBatch::new(10);
    for line in text.lines() {
        assert!(batch.push_line(line).unwrap().is_none());
    }
    assert_eq!(batch.finish().unwrap(), entries);
}
