//! Changes of sessions: titles, tags and forks.
use claude_agent_rust_sdk::error::ClaudeError;
use claude_agent_rust_sdk::sessions::fork::{
    build_fork_lines, check_fork_request, collect_replacements, derive_title_from_entries,
    fork_file, fork_loaded, fork_stored, fresh_fork_ids, parse_fork_transcript, ForkIds,
};
use claude_agent_rust_sdk::sessions::key::SessionKey;
use claude_agent_rust_sdk::sessions::mutations::{
    append_fault, no_messages_err, not_found_message, rename_line, rename_store_entry, require_uuid,
    sanitize_unicode, tag_line, tag_store_entry,
};
use claude_agent_rust_sdk::sessions::store::InMemorySessionStore;
use claude_agent_rust_sdk::time::{
    epoch_iso8601, epoch_ms, format_iso8601, iso_now, now_ms, parse_iso8601_ms,
};
use claude_agent_rust_sdk::sessions::store::SessionStoreEntry;
use serde_json::Value;

const SRC: &str = "11111111-1111-4111-8111-111111111111";
const MSG_A: &str = "aaaaaaaa-aaaa-4aaa-8aaa-aaaaaaaaaaaa";
const MSG_B: &str = "bbbbbbbb-bbbb-4bbb-8bbb-bbbbbbbbbbbb";
const MSG_C: &str = "cccccccc-cccc-4ccc-8ccc-cccccccccccc";

fn entry(text: &str) -> SessionStoreEntry {
    match serde_json::from_str(text).unwrap() {
        Value::Object(m) => m,
        _ => panic!("expected object"),
    }
}

/// An entry with these fields in the session `SRC`.
fn in_src(fields: &str) -> SessionStoreEntry {
    entry(&format!("{{{fields},\"sessionId\":\"{SRC}\"}}"))
}

fn key(session_id: &str) -> SessionKey {
    SessionKey::new("proj", session_id)
}

fn text<'a>(m: &'a SessionStoreEntry, k: &str) -> Option<&'a str> {
    m.get(k).and_then(Value::as_str)
}

// ------- unicode sanitization -------

#[test]
fn sanitize_unicode_strips_dangerous_chars() {
    let dirty = "hel\u{200b}lo\u{202e}world\u{feff}";
    assert_eq!(sanitize_unicode(dirty), "helloworld");
}

#[test]
fn sanitize_unicode_preserves_normal_text() {
    assert_eq!(sanitize_unicode("normal tag-123"), "normal tag-123");
}

#[test]
fn sanitized_texts_are_in_compatibility_form() {
    assert_eq!(sanitize_unicode("\u{fb01}x \u{ff21}"), "fix A");
    assert_eq!(sanitize_unicode("\u{200b}\u{2066}"), "");
}

// ------- times -------

#[test]
fn iso_now_is_well_formed() {
    let s = iso_now();
    assert!(s.ends_with('Z'));
    assert_eq!(s.len(), 24);
    assert_eq!(format_iso8601(0, 0), "1970-01-01T00:00:00.000Z");
}

#[test]
fn the_clock_is_past_a_known_day() {
    assert!(now_ms() > 1_704_067_200_000);
    assert!(parse_iso8601_ms(&iso_now()).unwrap() > 1_704_067_200_000);
}

#[test]
fn clock_readings_as_milliseconds() {
    assert_eq!(epoch_ms(0, 0), 0);
    assert_eq!(epoch_ms(1_704_164_645, 678), 1_704_164_645_678);
    assert_eq!(epoch_ms(9_223_372_036_854_775, 806), i64::MAX - 1);
    assert_eq!(epoch_ms(9_223_372_036_854_775, 807), i64::MAX);
    assert_eq!(epoch_ms(9_223_372_036_854_775, 808), i64::MAX);
    assert_eq!(epoch_ms(u64::MAX, 999), i64::MAX);
    assert_eq!(epoch_iso8601(0, 5), "1970-01-01T00:00:00.005Z");
    assert_eq!(epoch_iso8601(1_704_164_645, 678), "2024-01-02T03:04:05.678Z");
    assert_eq!(epoch_iso8601(u64::MAX, 678), "1970-01-01T00:00:00.678Z");
}

#[test]
fn formatted_times_are_read_back() {
    assert_eq!(
        format_iso8601(1_704_164_645, 678),
        "2024-01-02T03:04:05.678Z"
    );
    assert_eq!(format_iso8601(-1, 999), "1969-12-31T23:59:59.999Z");
    for secs in [-62_135_596_800i64, -1, 0, 951_782_400, 4_102_444_800, 253_402_300_799] {
        let text = format_iso8601(secs, 7);
        assert_eq!(parse_iso8601_ms(&text), Some(secs * 1000 + 7), "{text}");
    }
}

// ------- titles and tags -------

#[test]
fn rename_via_store_appends_custom_title() {
    let mut store = InMemorySessionStore::new();
    let e = rename_store_entry(SRC, "  New Title  ").unwrap();
    store.append(&key(SRC), vec![e]);
    let entries = store.get_entries(&key(SRC));
    assert_eq!(entries.len(), 1);
    assert_eq!(entries[0].get("type").unwrap(), "custom-title");
    assert_eq!(entries[0].get("customTitle").unwrap(), "New Title");
}

#[test]
fn rename_via_store_rejects_empty_title() {
    let err = rename_store_entry(SRC, "   ").unwrap_err();
    assert!(matches!(err, ClaudeError::InvalidConfig(_)));
}

#[test]
fn tag_via_store_sanitizes_and_clear() {
    let mut store = InMemorySessionStore::new();
    store.append(&key(SRC), vec![tag_store_entry(SRC, Some("exp\u{200b}")).unwrap()]);
    store.append(&key(SRC), vec![tag_store_entry(SRC, None).unwrap()]);
    let entries = store.get_entries(&key(SRC));
    assert_eq!(entries.len(), 2);
    assert_eq!(entries[0].get("tag").unwrap(), "exp");
    assert_eq!(entries[1].get("tag").unwrap(), "");
}

#[test]
fn store_entries_carry_an_identifier_and_a_time() {
    let a = rename_store_entry(SRC, "t").unwrap();
    let b = rename_store_entry(SRC, "t").unwrap();
    assert_ne!(text(&a, "uuid"), text(&b, "uuid"));
    let id = uuid::Uuid::parse_str(text(&a, "uuid").unwrap()).unwrap();
    assert_eq!(id.get_version_num(), 4);
    assert!(parse_iso8601_ms(text(&a, "timestamp").unwrap()).is_some());
    assert_eq!(text(&a, "sessionId"), Some(SRC));
}

#[test]
fn lines_of_titles_and_tags() {
    assert_eq!(
        rename_line(SRC, " My title ").unwrap(),
        format!("{{\"type\":\"custom-title\",\"customTitle\":\"My title\",\"sessionId\":\"{SRC}\"}}\n")
    );
    assert_eq!(
        tag_line(SRC, Some("a\u{200b}b")).unwrap(),
        format!("{{\"type\":\"tag\",\"tag\":\"ab\",\"sessionId\":\"{SRC}\"}}\n")
    );
    assert!(tag_line(SRC, Some("\u{200b}")).is_err());
    assert!(tag_line(SRC, None).is_ok());
}

#[test]
fn delete_via_store_cascades_subagents() {
    let mut store = InMemorySessionStore::new();
    let main = key(SRC);
    let sub = SessionKey::with_subpath("proj", SRC, "subagents/agent-x").unwrap();
    store.append(&main, vec![entry(r#"{"type":"user","uuid":"a"}"#)]);
    store.append(&sub, vec![entry(r#"{"type":"user","uuid":"b"}"#)]);
    assert!(require_uuid(SRC).is_ok());
    store.delete(&key(SRC));
    assert!(store.get_entries(&main).is_empty());
    assert!(store.get_entries(&sub).is_empty());
}

#[test]
fn invalid_uuid_rejected_across_apis() {
    assert!(matches!(
        rename_line("bad", "t"),
        Err(ClaudeError::InvalidConfig(_))
    ));
    assert!(matches!(
        tag_line("bad", Some("t")),
        Err(ClaudeError::InvalidConfig(_))
    ));
    assert!(matches!(
        require_uuid("bad"),
        Err(ClaudeError::InvalidConfig(_))
    ));
    assert!(matches!(
        check_fork_request("bad", None),
        Err(ClaudeError::InvalidConfig(_))
    ));
    assert!(matches!(
        check_fork_request(SRC, Some("bad")),
        Err(ClaudeError::InvalidConfig(_))
    ));
    assert!(check_fork_request(SRC, Some(MSG_A)).is_ok());
}

#[test]
fn messages_for_missing_sessions() {
    assert_eq!(
        not_found_message(SRC, Some("/work")),
        format!("Session {SRC} not found in project directory for /work")
    );
    assert!(not_found_message(SRC, None).contains(SRC));
    assert!(not_found_message(SRC, Some("")).contains(SRC));
    match no_messages_err(SRC) {
        ClaudeError::InvalidConfig(m) => assert!(m.contains(SRC)),
        other => panic!("unexpected {other:?}"),
    }
}

// ------- forks -------

#[test]
fn fork_via_store_remaps_uuids_and_stamps_forked_from() {
    let loaded = vec![
        in_src(&format!(
            r#""type":"user","uuid":"{MSG_A}","parentUuid":null,"teamName":"team","message":{{"content":"1"}}"#
        )),
        in_src(&format!(
            r#""type":"assistant","uuid":"{MSG_B}","parentUuid":"{MSG_A}","message":{{"content":"2"}}"#
        )),
    ];
    let (session_id, forked) = fork_loaded(&loaded, SRC, None, None).unwrap();
    assert_ne!(session_id, SRC);
    assert_eq!(forked.len(), 3);
    for e in &forked[..2] {
        let u = text(e, "uuid").unwrap();
        assert!(u != MSG_A && u != MSG_B);
        assert_eq!(text(e, "sessionId"), Some(session_id.as_str()));
        let ff = e.get("forkedFrom").unwrap();
        assert_eq!(ff.get("sessionId").unwrap(), SRC);
    }
    assert!(forked[0].get("teamName").is_none());
    let first_uuid = forked[0].get("uuid").unwrap();
    assert_eq!(forked[1].get("parentUuid").unwrap(), first_uuid);
    assert!(text(&forked[2], "customTitle").unwrap().ends_with("(fork)"));
}

#[test]
fn fork_via_store_remaps_or_nulls_logical_parent() {
    let loaded = vec![
        in_src(&format!(
            r#""type":"user","uuid":"{MSG_A}","parentUuid":null,"message":{{"content":"a"}}"#
        )),
        in_src(&format!(
            r#""type":"assistant","uuid":"{MSG_B}","parentUuid":"{MSG_A}","logicalParentUuid":"{MSG_A}","message":{{"content":"b"}}"#
        )),
        in_src(&format!(
            r#""type":"assistant","uuid":"{MSG_C}","parentUuid":"{MSG_B}","logicalParentUuid":"deadbeef-dead-4bee-8bee-deadbeefdead","message":{{"content":"c"}}"#
        )),
    ];
    let (_, forked) = fork_loaded(&loaded, SRC, None, None).unwrap();
    assert_eq!(forked.len(), 4);
    let a_uuid = text(&forked[0], "uuid").unwrap();
    assert_eq!(
        text(&forked[1], "logicalParentUuid"),
        Some(a_uuid),
        "in-fork logicalParentUuid remapped to the new uuid"
    );
    assert_eq!(
        forked[2].get("logicalParentUuid"),
        Some(&Value::Null),
        "unmapped logicalParentUuid resolves to null"
    );
}

#[test]
fn fork_via_store_cutoff_and_explicit_title() {
    let loaded = vec![
        in_src(&format!(
            r#""type":"user","uuid":"{MSG_A}","parentUuid":null,"message":{{"content":"1"}}"#
        )),
        in_src(&format!(
            r#""type":"assistant","uuid":"{MSG_B}","parentUuid":"{MSG_A}","message":{{"content":"2"}}"#
        )),
        in_src(&format!(
            r#""type":"user","uuid":"{MSG_C}","parentUuid":"{MSG_B}","message":{{"content":"3"}}"#
        )),
    ];
    let (_, forked) = fork_loaded(&loaded, SRC, Some(MSG_B), Some("Custom")).unwrap();
    assert_eq!(forked.len(), 3);
    assert_eq!(text(&forked[2], "customTitle"), Some("Custom"));
}

#[test]
fn fork_via_store_missing_message_errors() {
    let loaded = vec![in_src(&format!(
        r#""type":"user","uuid":"{MSG_A}","parentUuid":null,"message":{{"content":"1"}}"#
    ))];
    let err = fork_loaded(&loaded, SRC, Some(MSG_C), None).unwrap_err();
    assert!(matches!(err, ClaudeError::InvalidConfig(_)));
}

#[test]
fn fork_of_nothing_is_an_error() {
    assert!(matches!(
        fork_loaded(&Vec::new(), SRC, None, None),
        Err(ClaudeError::InvalidConfig(_))
    ));
    let progress_only = vec![in_src(&format!(
        r#""type":"progress","uuid":"{MSG_A}","parentUuid":null"#
    ))];
    assert!(fork_loaded(&progress_only, SRC, None, None).is_err());
}

fn numbered_ids(n: usize) -> ForkIds {
    ForkIds {
        entries: (0..n).map(|i| format!("new-{i}")).collect(),
        session_id: "forked".to_string(),
        replacement: "replacement".to_string(),
        title: "title".to_string(),
    }
}

#[test]
fn fork_lines_skip_progress_and_keep_links() {
    let transcript = vec![
        in_src(r#""type":"user","uuid":"a","parentUuid":null,"timestamp":"2024-01-01T00:00:00Z""#),
        in_src(r#""type":"progress","uuid":"p","parentUuid":"a""#),
        in_src(r#""type":"assistant","uuid":"b","parentUuid":"p","isSidechain":false"#),
        in_src(r#""type":"assistant","uuid":"s","parentUuid":"a","isSidechain":true"#),
    ];
    let ids = numbered_ids(4);
    let (id, lines) = build_fork_lines(
        &transcript,
        &Vec::new(),
        SRC,
        None,
        None,
        Some("Derived"),
        &ids,
        "2024-05-05T00:00:00.000Z",
    )
    .unwrap();
    assert_eq!(id, "forked");
    assert_eq!(lines.len(), 3);
    assert!(lines.iter().all(|l| l.ends_with('\n')));
    let first = entry(&lines[0]);
    let second = entry(&lines[1]);
    let title = entry(&lines[2]);
    assert_eq!(text(&first, "uuid"), Some("new-0"));
    assert_eq!(text(&second, "parentUuid"), Some("new-0"), "progress is skipped");
    assert_eq!(second.get("isSidechain"), Some(&Value::Bool(false)));
    assert_eq!(
        second["forkedFrom"].get("messageUuid").and_then(Value::as_str),
        Some("b")
    );
    assert_eq!(text(&first, "timestamp"), Some("2024-01-01T00:00:00Z"));
    assert_eq!(text(&second, "timestamp"), Some("2024-05-05T00:00:00.000Z"));
    assert_eq!(text(&title, "type"), Some("custom-title"));
    assert_eq!(text(&title, "customTitle"), Some("Derived (fork)"));
    assert_eq!(text(&title, "uuid"), Some("title"));
}

#[test]
fn progress_entries_that_lead_back_to_themselves_end_a_link() {
    let transcript = vec![
        in_src(r#""type":"progress","uuid":"p","parentUuid":"q""#),
        in_src(r#""type":"progress","uuid":"q","parentUuid":"p""#),
        in_src(r#""type":"user","uuid":"a","parentUuid":"p""#),
    ];
    let ids = numbered_ids(3);
    let (_, lines) =
        build_fork_lines(&transcript, &Vec::new(), SRC, None, None, None, &ids, "now").unwrap();
    assert_eq!(entry(&lines[0]).get("parentUuid"), Some(&Value::Null));
}

#[test]
fn forks_carry_content_replacements() {
    let loaded = vec![
        in_src(r#""type":"user","uuid":"a","parentUuid":null,"message":{"content":"hello there"}"#),
        in_src(r#""type":"content-replacement","replacements":[{"x":1},{"x":2}]"#),
        entry(r#"{"type":"content-replacement","sessionId":"other","replacements":[{"x":3}]}"#),
    ];
    assert_eq!(collect_replacements(&loaded, SRC).len(), 2);
    let (session_id, forked) = fork_loaded(&loaded, SRC, None, None).unwrap();
    assert_eq!(forked.len(), 3);
    assert_eq!(text(&forked[1], "type"), Some("content-replacement"));
    assert_eq!(text(&forked[1], "sessionId"), Some(session_id.as_str()));
    assert_eq!(forked[1]["replacements"].as_array().map(Vec::len), Some(2));
    assert_eq!(
        text(&forked[2], "customTitle"),
        Some("hello there (fork)"),
        "the title is that of the forked session"
    );
}

#[test]
fn forks_of_files_and_of_stores_are_alike() {
    let lines = [
        format!(r#"{{"type":"user","uuid":"{MSG_A}","parentUuid":null,"sessionId":"{SRC}","message":{{"content":"1"}}}}"#),
        "not json".to_string(),
        format!(r#"{{"type":"assistant","uuid":"{MSG_B}","parentUuid":"{MSG_A}","sessionId":"{SRC}","message":{{"content":"2"}}}}"#),
    ]
    .join("\n");
    let (entries, replacements) = parse_fork_transcript(lines.as_bytes(), SRC);
    assert_eq!(entries.len(), 2);
    assert!(replacements.is_empty());
    let (id, body) = fork_file(lines.as_bytes(), SRC, None, Some("T")).unwrap();
    let (_, stored) = fork_loaded(&entries, SRC, None, Some("T")).unwrap();
    let written: Vec<SessionStoreEntry> = body
        .lines()
        .filter(|l| !l.is_empty())
        .map(entry)
        .collect();
    assert_eq!(written.len(), stored.len());
    assert!(body.ends_with('\n'));
    for (w, s) in written.iter().zip(&stored) {
        let left: Vec<&String> = w.keys().collect();
        let right: Vec<&String> = s.keys().collect();
        assert_eq!(left, right);
    }
    assert_eq!(text(&written[0], "sessionId"), Some(id.as_str()));
    assert!(matches!(
        fork_file(b"", SRC, None, None),
        Err(ClaudeError::InvalidConfig(_))
    ));
}

#[test]
fn file_and_store_derive_the_same_title_for_a_fork() {
    let title_of = |entries: &[SessionStoreEntry]| {
        let last = entries.last().unwrap();
        text(last, "customTitle").unwrap().to_string()
    };
    for (more, expected) in [
        (r#"{"type":"custom-title","customTitle":""}"#, "hi (fork)"),
        (r#"{"type":"ai-title","aiTitle":"AI"}"#, "AI (fork)"),
        (r#"{"type":"custom-title","customTitle":"Mine"}"#, "Mine (fork)"),
    ] {
        let lines = format!(
            "{}\n{more}\n",
            r#"{"type":"user","uuid":"a","message":{"content":"hi"}}"#
        );
        let (_, body) = fork_file(lines.as_bytes(), SRC, None, None).unwrap();
        let written: Vec<SessionStoreEntry> =
            body.lines().filter(|l| !l.is_empty()).map(entry).collect();
        let loaded: Vec<SessionStoreEntry> = lines.lines().map(entry).collect();
        let (_, stored) = fork_loaded(&loaded, SRC, None, None).unwrap();
        assert_eq!(title_of(&written), expected);
        assert_eq!(title_of(&stored), expected);
    }
}

#[test]
fn a_fork_of_an_absent_or_empty_session_fails() {
    match fork_stored(None, SRC, None, None) {
        Err(ClaudeError::TransportError(text)) => {
            assert_eq!(text, format!("Session {SRC} not found"));
        }
        other => panic!("unexpected: {other:?}"),
    }
    assert!(matches!(
        fork_stored(Some(&Vec::new()), SRC, None, None),
        Err(ClaudeError::InvalidConfig(_))
    ));
    let loaded = vec![entry(r#"{"type":"user","uuid":"a","message":{"content":"hi"}}"#)];
    assert_eq!(fork_stored(Some(&loaded), SRC, None, None).unwrap().1.len(), 2);
}

#[test]
fn fresh_identifiers_are_random_uuids() {
    let ids = fresh_fork_ids(3);
    assert_eq!(ids.entries.len(), 3);
    assert_ne!(ids.entries[0], ids.entries[1]);
    for id in ids.entries.iter().chain([&ids.session_id, &ids.replacement, &ids.title]) {
        assert_eq!(uuid::Uuid::parse_str(id).unwrap().get_version_num(), 4);
    }
}

#[test]
fn titles_of_entries() {
    let titled = vec![
        entry(r#"{"type":"user","uuid":"a","message":{"content":"prompt"}}"#),
        entry(r#"{"type":"ai-title","aiTitle":"AI"}"#),
        entry(r#"{"type":"custom-title","customTitle":"Mine"}"#),
    ];
    assert_eq!(derive_title_from_entries(&titled).as_deref(), Some("Mine"));
    assert_eq!(
        derive_title_from_entries(&titled[..2].to_vec()).as_deref(),
        Some("AI")
    );
    assert_eq!(
        derive_title_from_entries(&titled[..1].to_vec()).as_deref(),
        Some("prompt")
    );
    assert_eq!(derive_title_from_entries(&Vec::new()), None);
}

#[test]
fn append_faults_tell_where_was_looked() {
    for (directory, has_projects, expected) in [
        (Some("/work"), true, format!("Session {SRC} not found in project directory for /work")),
        (Some("/work"), false, format!("Session {SRC} not found in project directory for /work")),
        (Some(""), true, format!("Session {SRC} not found in any project directory")),
        (None, true, format!("Session {SRC} not found in any project directory")),
        (None, false, format!("Session {SRC} not found (no projects directory)")),
    ] {
        match append_fault(SRC, directory, has_projects) {
            ClaudeError::TransportError(text) => assert_eq!(text, expected),
            other => panic!("unexpected {other:?}"),
        }
    }
}
