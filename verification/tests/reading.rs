//! Reading transcripts and their metadata.
use claude_agent_rust_sdk::sessions::listing::{
    agent_file_id, apply_sort_limit_offset, claude_config_home_dir, deduplicate_by_session_id,
    find_project_dir, get_project_dir, get_projects_dir, home_dir, lite_from_reads, merge_sessions,
    merges_worktrees, named_directory, parse_worktree_paths, pick_worktree_dirs, search_paths,
    session_file_stem,
};
use claude_agent_rust_sdk::sessions::lite::{
    extract_json_string_field, extract_last_json_string_field, lite_from_bytes,
    parse_session_info_from_lite, validate_uuid, LiteSessionFile, LITE_READ_BUF_SIZE,
};
use claude_agent_rust_sdk::sessions::prompt::{
    extract_first_prompt_from_head, is_skip_first_prompt,
};
use claude_agent_rust_sdk::sessions::store::SDKSessionInfo;
use claude_agent_rust_sdk::sessions::transcript::{
    build_conversation_chain, entries_to_session_messages, entries_to_subagent_messages,
    entry_uuid, parse_transcript_entries, SessionMessageType, TranscriptEntry,
};
use claude_agent_rust_sdk::time::parse_iso8601_ms;

const S1: &str = "11111111-1111-4111-8111-111111111111";
const S2: &str = "22222222-2222-4222-8222-222222222222";

fn parse(lines: &[String]) -> Vec<TranscriptEntry> {
    parse_transcript_entries(&lines.join("\n"))
}

/// A line of a transcript: its fields, in the session `S1`.
fn line(fields: &str) -> String {
    format!("{{{fields},\"sessionId\":\"{S1}\"}}")
}

fn texts(list: &[&str]) -> Vec<String> {
    list.iter().map(|s| s.to_string()).collect()
}

// ------- identifiers and fields -------

#[test]
fn validate_uuid_accepts_valid_rejects_invalid() {
    assert_eq!(validate_uuid(S1), Some(S1));
    assert_eq!(validate_uuid("not-a-uuid"), None);
    assert_eq!(validate_uuid(""), None);
}

#[test]
fn uuids_have_hyphens_in_their_places_and_hex_digits_elsewhere() {
    assert_eq!(
        validate_uuid("AAAAAAAA-bbbb-4CCC-8ddd-eeeeeeeeeeee"),
        Some("AAAAAAAA-bbbb-4CCC-8ddd-eeeeeeeeeeee")
    );
    assert_eq!(validate_uuid("111111111-111-4111-8111-111111111111"), None);
    assert_eq!(validate_uuid("g1111111-1111-4111-8111-111111111111"), None);
    assert_eq!(validate_uuid("11111111-1111-4111-8111-1111111111111"), None);
}

#[test]
fn extract_json_string_field_first_and_last() {
    let text = r#"{"cwd":"/a","cwd":"/b"}"#;
    assert_eq!(
        extract_json_string_field(text, "cwd").as_deref(),
        Some("/a")
    );
    assert_eq!(
        extract_last_json_string_field(text, "cwd").as_deref(),
        Some("/b")
    );
}

#[test]
fn extract_json_string_field_handles_spacing_and_escapes() {
    let text = r#"{"gitBranch": "feature\/x"}"#;
    assert_eq!(
        extract_json_string_field(text, "gitBranch").as_deref(),
        Some("feature/x")
    );
}

#[test]
fn fields_are_found_by_position_in_either_spelling() {
    let text = "{\"t\": \"old\"}\n{\"t\":\"new\"}";
    assert_eq!(extract_json_string_field(text, "t").as_deref(), Some("old"));
    assert_eq!(
        extract_last_json_string_field(text, "t").as_deref(),
        Some("new")
    );
    let turned = "{\"t\":\"old\"}\n{\"t\": \"new\"}\n{\"t\":\"open";
    assert_eq!(extract_json_string_field(turned, "t").as_deref(), Some("old"));
    assert_eq!(
        extract_last_json_string_field(turned, "t").as_deref(),
        Some("new")
    );
}

#[test]
fn extract_json_string_field_missing_returns_none() {
    assert_eq!(extract_json_string_field("{}", "nope"), None);
}

#[test]
fn fields_end_at_an_unescaped_quote() {
    let text = r#"{"title":"a \"quoted\" word","x":1}"#;
    assert_eq!(
        extract_json_string_field(text, "title").as_deref(),
        Some("a \"quoted\" word")
    );
    assert_eq!(extract_json_string_field(r#"{"title":"open"#, "title"), None);
}

// ------- first prompts -------

#[test]
fn first_prompt_skips_meta_and_commands() {
    let head = [
        r#"{"type":"user","isMeta":true,"message":{"content":"meta"}}"#,
        r#"{"type":"user","message":{"content":"<command-name>build</command-name>"}}"#,
        r#"{"type":"user","message":{"content":"real question"}}"#,
    ]
    .join("\n");
    assert_eq!(extract_first_prompt_from_head(&head), "real question");
}

#[test]
fn first_prompt_command_fallback_when_only_commands() {
    let head = r#"{"type":"user","message":{"content":"<command-name>deploy</command-name>"}}"#;
    assert_eq!(extract_first_prompt_from_head(head), "deploy");
}

#[test]
fn first_prompt_truncates_to_200_chars() {
    let long = "x".repeat(250);
    let head = format!(r#"{{"type":"user","message":{{"content":"{long}"}}}}"#);
    let out = extract_first_prompt_from_head(&head);
    assert_eq!(out.chars().count(), 201);
    assert!(out.ends_with('\u{2026}'));
}

#[test]
fn first_prompt_handles_content_blocks() {
    let head =
        r#"{"type":"user","message":{"content":[{"type":"text","text":"hello blocks"}]}}"#;
    assert_eq!(extract_first_prompt_from_head(head), "hello blocks");
}

#[test]
fn is_skip_first_prompt_covers_every_marker() {
    assert!(is_skip_first_prompt("<local-command-stdout>output"));
    assert!(is_skip_first_prompt("<session-start-hook>hi"));
    assert!(is_skip_first_prompt("<tick>"));
    assert!(is_skip_first_prompt("<goal>do the thing"));
    assert!(is_skip_first_prompt("[Request interrupted by user]"));
    assert!(is_skip_first_prompt(
        "[Request interrupted by user for tool use]"
    ));
    assert!(is_skip_first_prompt(
        "<ide_opened_file>foo.rs</ide_opened_file>"
    ));
    assert!(is_skip_first_prompt(
        "  <ide_selection>lines 1-5</ide_selection>  "
    ));
    assert!(!is_skip_first_prompt("real question"));
    assert!(!is_skip_first_prompt(
        "<ide_selection>x</ide_selection> then a real ask"
    ));
    assert!(!is_skip_first_prompt("hello <tick>"));
}

#[test]
fn first_prompt_skips_ide_selection_marker() {
    let head = [
        r#"{"type":"user","message":{"content":"<ide_selection>foo</ide_selection>"}}"#,
        r#"{"type":"user","message":{"content":"the real prompt"}}"#,
    ]
    .join("\n");
    assert_eq!(extract_first_prompt_from_head(&head), "the real prompt");
}

#[test]
fn first_prompts_pass_over_tool_results_and_compactions() {
    let head = [
        r#"{"type":"user","message":{"content":[{"type":"tool_result","content":"x"}]}}"#,
        r#"{"type":"user","isCompactSummary":true,"message":{"content":"summary"}}"#,
        r#"not json, but "type":"user""#,
        "{\"type\":\"user\",\"message\":{\"content\":\"two\\nlines\"}}",
    ]
    .join("\n");
    assert_eq!(extract_first_prompt_from_head(&head), "two lines");
    assert_eq!(extract_first_prompt_from_head(""), "");
}

// ------- conversations -------

#[test]
fn chain_walks_parent_uuid_in_order() {
    let entries = parse(&[
        line(r#""type":"user","uuid":"a","parentUuid":null,"message":{"content":"1"}"#),
        line(r#""type":"assistant","uuid":"b","parentUuid":"a","message":{"content":"2"}"#),
        line(r#""type":"user","uuid":"c","parentUuid":"b","message":{"content":"3"}"#),
    ]);
    let chain = build_conversation_chain(&entries);
    let uuids: Vec<&str> = chain.iter().map(entry_uuid).collect();
    assert_eq!(uuids, vec!["a", "b", "c"]);
}

#[test]
fn chain_prefers_main_over_sidechain_leaf() {
    let entries = parse(&[
        line(r#""type":"user","uuid":"a","parentUuid":null,"message":{"content":"1"}"#),
        line(r#""type":"assistant","uuid":"b","parentUuid":"a","message":{"content":"2"}"#),
        line(
            r#""type":"assistant","uuid":"s","parentUuid":null,"isSidechain":true,"message":{"content":"side"}"#,
        ),
    ]);
    let chain = build_conversation_chain(&entries);
    let uuids: Vec<&str> = chain.iter().map(entry_uuid).collect();
    assert_eq!(uuids, vec!["a", "b"]);
}

#[test]
fn chain_breaks_cycles() {
    let entries = parse(&[
        line(r#""type":"user","uuid":"a","parentUuid":"b","message":{"content":"1"}"#),
        line(r#""type":"assistant","uuid":"b","parentUuid":"a","message":{"content":"2"}"#),
    ]);
    let chain = build_conversation_chain(&entries);
    assert!(chain.len() <= 2);
}

#[test]
fn chain_ends_at_an_unknown_parent_and_starts_at_the_latest_leaf() {
    let entries = parse(&[
        line(r#""type":"user","uuid":"a","parentUuid":"gone""#),
        line(r#""type":"assistant","uuid":"b","parentUuid":"a""#),
        line(r#""type":"user","uuid":"c","parentUuid":"a""#),
        line(r#""type":"progress","uuid":"p","parentUuid":"c""#),
    ]);
    let chain = build_conversation_chain(&entries);
    let uuids: Vec<&str> = chain.iter().map(entry_uuid).collect();
    assert_eq!(uuids, vec!["a", "c"]);
}

#[test]
fn logical_parents_are_not_followed() {
    let with = |logical: &str| {
        parse(&[
            line(r#""type":"user","uuid":"a","parentUuid":null,"message":{"content":"1"}"#),
            line(&format!(
                r#""type":"user","uuid":"b","parentUuid":null,"logicalParentUuid":{logical},"message":{{"content":"2"}}"#
            )),
            line(r#""type":"assistant","uuid":"c","parentUuid":"b","message":{"content":"3"}"#),
        ])
    };
    for logical in [r#""a""#, r#""c""#, r#""gone""#, "null"] {
        let messages = entries_to_session_messages(&with(logical), None, 0);
        let uuids: Vec<&str> = messages.iter().map(|m| m.uuid.as_str()).collect();
        assert_eq!(uuids, vec!["b", "c"], "{logical}");
        let copies = messages.clone();
        assert_eq!(copies[1].uuid, "c");
        assert_eq!(copies[1].message, messages[1].message);
        assert_eq!(copies[1].message_type, SessionMessageType::Assistant);
    }
}

#[test]
fn messages_filter_meta_sidechain_and_include_compact_summary() {
    let entries = parse(&[
        line(r#""type":"user","uuid":"a","parentUuid":null,"message":{"content":"q"}"#),
        line(
            r#""type":"assistant","uuid":"b","parentUuid":"a","isCompactSummary":true,"message":{"content":"summary"}"#,
        ),
        line(
            r#""type":"user","uuid":"c","parentUuid":"b","isMeta":true,"message":{"content":"meta"}"#,
        ),
        line(r#""type":"assistant","uuid":"d","parentUuid":"c","message":{"content":"final"}"#),
    ]);
    let msgs = entries_to_session_messages(&entries, None, 0);
    let uuids: Vec<&str> = msgs.iter().map(|m| m.uuid.as_str()).collect();
    assert_eq!(uuids, vec!["a", "b", "d"]);
}

#[test]
fn messages_pagination_offset_and_limit() {
    let entries = parse(&[
        line(r#""type":"user","uuid":"a","parentUuid":null,"message":{"content":"1"}"#),
        line(r#""type":"assistant","uuid":"b","parentUuid":"a","message":{"content":"2"}"#),
        line(r#""type":"user","uuid":"c","parentUuid":"b","message":{"content":"3"}"#),
        line(r#""type":"assistant","uuid":"d","parentUuid":"c","message":{"content":"4"}"#),
    ]);
    let page = entries_to_session_messages(&entries, Some(2), 1);
    let uuids: Vec<&str> = page.iter().map(|m| m.uuid.as_str()).collect();
    assert_eq!(uuids, vec!["b", "c"]);
}

#[test]
fn pages_cover_the_messages() {
    let entries = parse(&[
        line(r#""type":"user","uuid":"a","parentUuid":null"#),
        line(r#""type":"assistant","uuid":"b","parentUuid":"a""#),
        line(r#""type":"user","uuid":"c","parentUuid":"b""#),
    ]);
    let first = entries_to_session_messages(&entries, Some(2), 0);
    let second = entries_to_session_messages(&entries, None, 2);
    let all = entries_to_session_messages(&entries, Some(0), 0);
    assert_eq!(first.len() + second.len(), all.len());
    assert_eq!(all.len(), 3);
    assert!(entries_to_session_messages(&entries, Some(1), 7).is_empty());
    assert_eq!(all[0].message_type, SessionMessageType::User);
    assert_eq!(all[1].message_type, SessionMessageType::Assistant);
    assert_eq!(all[2].session_id, S1);
    assert!(all[0].message.is_none());
}

#[test]
fn corrupt_lines_are_skipped() {
    let content = format!(
        "{}\n{{ this is not json\n{}\n\n",
        line(r#""type":"user","uuid":"a","parentUuid":null,"message":{"content":"1"}"#),
        line(r#""type":"assistant","uuid":"b","parentUuid":"a","message":{"content":"2"}"#),
    );
    let entries = parse_transcript_entries(&content);
    assert_eq!(entries.len(), 2);
}

#[test]
fn entries_without_uuid_or_wrong_type_are_dropped() {
    let entries = parse(&[
        line(r#""type":"user","message":{"content":"no uuid"}"#),
        r#"{"type":"tag","uuid":"t","tag":"x"}"#.to_string(),
        line(r#""type":"user","uuid":"ok","parentUuid":null,"message":{"content":"ok"}"#),
    ]);
    assert_eq!(entries.len(), 1);
    assert_eq!(entry_uuid(&entries[0]), "ok");
}

#[test]
fn subagent_chain_is_linear_last_leaf() {
    let entries = parse(&[
        line(r#""type":"user","uuid":"a","parentUuid":null,"message":{"content":"1"}"#),
        line(r#""type":"assistant","uuid":"b","parentUuid":"a","message":{"content":"2"}"#),
    ]);
    let msgs = entries_to_subagent_messages(&entries, None, 0);
    let uuids: Vec<&str> = msgs.iter().map(|m| m.uuid.as_str()).collect();
    assert_eq!(uuids, vec!["a", "b"]);
}

// ------- metadata -------

#[test]
fn parse_info_extracts_metadata_fields() {
    let head = r#"{"type":"user","uuid":"a","cwd":"/proj","gitBranch":"main","timestamp":"2024-01-02T03:04:05.678Z","message":{"content":"first question here"}}"#.to_string();
    let tail = [
        head.clone(),
        format!(r#"{{"type":"custom-title","customTitle":"My Title","sessionId":"{S1}"}}"#),
        format!(r#"{{"type":"tag","tag":"exp","sessionId":"{S1}"}}"#),
    ]
    .join("\n");
    let lite = LiteSessionFile {
        mtime: 1000,
        size: 42,
        head,
        tail,
    };
    let info = parse_session_info_from_lite(S1, &lite, Some("/proj")).unwrap();
    assert_eq!(info.summary, "My Title");
    assert_eq!(info.custom_title.as_deref(), Some("My Title"));
    assert_eq!(info.git_branch.as_deref(), Some("main"));
    assert_eq!(info.cwd.as_deref(), Some("/proj"));
    assert_eq!(info.tag.as_deref(), Some("exp"));
    assert_eq!(info.first_prompt.as_deref(), Some("first question here"));
    assert_eq!(info.file_size, Some(42));
    assert_eq!(info.last_modified, 1000);
    assert_eq!(info.created_at, Some(1_704_164_645_678));
}

#[test]
fn parse_info_rejects_sidechain_first_line() {
    let head =
        r#"{"type":"user","uuid":"a","isSidechain":true,"message":{"content":"x"}}"#.to_string();
    let lite = LiteSessionFile {
        mtime: 1,
        size: 1,
        head: head.clone(),
        tail: head,
    };
    assert!(parse_session_info_from_lite(S1, &lite, None).is_none());
}

#[test]
fn parse_info_rejects_metadata_only_session() {
    let head = r#"{"type":"summary","note":"nothing useful"}"#.to_string();
    let lite = LiteSessionFile {
        mtime: 1,
        size: 1,
        head: head.clone(),
        tail: head,
    };
    assert!(parse_session_info_from_lite(S1, &lite, None).is_none());
}

#[test]
fn parse_info_empty_title_falls_back_to_first_prompt() {
    let user = r#"{"type":"user","uuid":"a","message":{"content":"the real prompt"}}"#;
    let custom = r#"{"type":"custom-title","customTitle":""}"#;
    let head = [custom, user].join("\n");
    let lite = LiteSessionFile {
        mtime: 1,
        size: 1,
        head: head.clone(),
        tail: head,
    };
    let info = parse_session_info_from_lite(S1, &lite, None).unwrap();
    assert_eq!(info.custom_title, None, "empty customTitle is not a title");
    assert_eq!(
        info.summary, "the real prompt",
        "summary falls back to the first prompt when title is empty"
    );
}

#[test]
fn parse_info_all_empty_metadata_drops_session() {
    let custom = r#"{"type":"custom-title","customTitle":""}"#;
    let meta = r#"{"type":"summary","note":"x"}"#;
    let head = [custom, meta].join("\n");
    let lite = LiteSessionFile {
        mtime: 1,
        size: 1,
        head: head.clone(),
        tail: head,
    };
    assert!(
        parse_session_info_from_lite(S1, &lite, None).is_none(),
        "session with only empty metadata is dropped"
    );
}

#[test]
fn parse_info_tag_scoped_to_tag_lines() {
    let head =
        r#"{"type":"user","uuid":"a","message":{"content":"real prompt text"}}"#.to_string();
    let tail = [
        head.clone(),
        r#"{"type":"assistant","uuid":"b","tag":"git-tag-input"}"#.to_string(),
    ]
    .join("\n");
    let lite = LiteSessionFile {
        mtime: 1,
        size: 1,
        head,
        tail,
    };
    let info = parse_session_info_from_lite(S1, &lite, None).unwrap();
    assert_eq!(info.tag, None);
}

#[test]
fn lite_reads_the_two_ends_of_a_file() {
    let mut bytes = vec![b'a'; LITE_READ_BUF_SIZE];
    bytes.extend_from_slice(b"end");
    let lite = lite_from_bytes(&bytes, 5);
    assert_eq!(lite.size, LITE_READ_BUF_SIZE as i64 + 3);
    assert_eq!(lite.mtime, 5);
    assert_eq!(lite.head.len(), LITE_READ_BUF_SIZE);
    assert!(!lite.head.contains("end"));
    assert_eq!(lite.tail.len(), LITE_READ_BUF_SIZE);
    assert!(lite.tail.ends_with("end"));
    let small = lite_from_bytes(b"x\xFFy", 0);
    assert_eq!(small.head, "x\u{FFFD}y");
    assert_eq!(small.tail, small.head);
}

#[test]
fn lite_reads_of_an_empty_file_are_nothing() {
    assert!(lite_from_reads(b"", None, 0, 1).is_none());
    let lite = lite_from_reads(b"head", Some(b"tail"), 9, 1).unwrap();
    assert_eq!(lite.head, "head");
    assert_eq!(lite.tail, "tail");
    assert_eq!(lite.size, 9);
}

// ------- lists of sessions -------

fn info(id: &str, mtime: i64) -> SDKSessionInfo {
    SDKSessionInfo {
        session_id: id.to_string(),
        summary: "s".into(),
        last_modified: mtime,
        ..Default::default()
    }
}

#[test]
fn dedup_keeps_newest_and_sort_desc() {
    let deduped = deduplicate_by_session_id(vec![info(S1, 100), info(S1, 200), info(S2, 50)]);
    let sorted = apply_sort_limit_offset(deduped, None, 0);
    assert_eq!(sorted.len(), 2);
    assert_eq!(sorted[0].last_modified, 200);
    assert_eq!(sorted[1].last_modified, 50);
}

#[test]
fn sort_limit_offset_paginates() {
    let mk = |mtime: i64| SDKSessionInfo {
        session_id: uuid::Uuid::new_v4().to_string(),
        summary: "s".into(),
        last_modified: mtime,
        ..Default::default()
    };
    let items = vec![mk(1), mk(2), mk(3), mk(4), mk(5)];
    let page = apply_sort_limit_offset(items, Some(2), 1);
    let mtimes: Vec<i64> = page.iter().map(|s| s.last_modified).collect();
    assert_eq!(mtimes, vec![4, 3]);
}

#[test]
fn a_page_is_a_slice_of_the_whole_listing() {
    let found = || vec![info("a", 3), info("b", 9), info("a", 7), info("c", 5), info("d", 1)];
    let ids = |list: Vec<SDKSessionInfo>| -> Vec<String> {
        list.into_iter().map(|s| s.session_id).collect()
    };
    let all = ids(merge_sessions(found(), None, 0));
    assert_eq!(all, vec!["b", "a", "c", "d"]);
    for offset in 0..6usize {
        let from = offset.min(all.len());
        assert_eq!(ids(merge_sessions(found(), None, offset)), &all[from..]);
        for n in 1..6usize {
            let to = (from + n).min(all.len());
            assert_eq!(ids(merge_sessions(found(), Some(n), offset)), &all[from..to]);
        }
    }
    let mut turned = found();
    turned.reverse();
    assert_eq!(ids(merge_sessions(turned, None, 0)), all);
}

#[test]
fn an_empty_directory_names_none() {
    assert_eq!(named_directory(Some("")), None);
    assert_eq!(named_directory(None), None);
    assert_eq!(named_directory(Some("/repo")), Some("/repo"));
}

#[test]
fn merged_lists_show_each_session_once_and_keep_ties_in_order() {
    let merged = merge_sessions(
        vec![info("x", 5), info("y", 5), info("x", 3), info("z", 9)],
        None,
        0,
    );
    let ids: Vec<&str> = merged.iter().map(|s| s.session_id.as_str()).collect();
    assert_eq!(ids, vec!["z", "x", "y"]);
}

// ------- times -------

#[test]
fn iso_parser_handles_z_and_offset() {
    assert_eq!(parse_iso8601_ms("1970-01-01T00:00:00.000Z"), Some(0));
    assert_eq!(parse_iso8601_ms("1970-01-01T00:00:01Z"), Some(1000));
    assert_eq!(parse_iso8601_ms("1970-01-01T01:00:00+01:00"), Some(0));
    assert_eq!(parse_iso8601_ms("1969-12-31T23:00:00-01:00"), Some(0));
    assert_eq!(parse_iso8601_ms("1970-01-01 00:00:00"), Some(0));
}

#[test]
fn a_point_behind_the_seconds_needs_a_digit() {
    assert_eq!(parse_iso8601_ms("1970-01-01T00:00:00."), None);
    assert_eq!(parse_iso8601_ms("1970-01-01T00:00:00.Z"), None);
    assert_eq!(parse_iso8601_ms("1970-01-01T00:00:00.5"), Some(500));
    assert_eq!(parse_iso8601_ms("1970-01-01T00:00:00.1239Z"), Some(123));
}

#[test]
fn iso_parser_rejects_malformed_and_trailing() {
    assert_eq!(parse_iso8601_ms("2024-01-01"), None);
    assert_eq!(parse_iso8601_ms(""), None);
    assert_eq!(parse_iso8601_ms("2024/01/01T00:00:00"), None);
    assert_eq!(parse_iso8601_ms("2024-01-01T00-00-00"), None);
    assert_eq!(parse_iso8601_ms("2024-13-01T00:00:00"), None);
    assert_eq!(parse_iso8601_ms("2024-02-30T00:00:00"), None);
    assert_eq!(parse_iso8601_ms("2023-02-29T00:00:00"), None);
    assert_eq!(parse_iso8601_ms("2024-01-01T00:60:00"), None);
    assert_eq!(parse_iso8601_ms("1970-01-01T00:00:00Zextra"), None);
    assert_eq!(parse_iso8601_ms("1970-01-01T00:00:00garbage"), None);
    assert_eq!(parse_iso8601_ms("1970-01-01T00:00:00.5x"), None);
    assert_eq!(parse_iso8601_ms("1970-01-01T00:00:00+1:00"), None);
    assert_eq!(
        parse_iso8601_ms("2024-02-29T00:00:00Z"),
        Some(1_709_164_800_000)
    );
}

// ------- directories -------

#[test]
fn config_directories() {
    assert_eq!(home_dir(Some(""), Some("/profile")), Some("/profile"));
    assert_eq!(home_dir(Some("/home/u"), Some("/profile")), Some("/home/u"));
    assert_eq!(home_dir(None, None), None);
    assert_eq!(
        claude_config_home_dir(Some("/cfg"), Some("/home/u"), "agent"),
        "/cfg"
    );
    assert_eq!(
        claude_config_home_dir(Some(""), Some("/home/u"), "agent"),
        "/home/u/.agent"
    );
    assert_eq!(claude_config_home_dir(None, None, "agent"), "./.agent");
    assert_eq!(
        claude_config_home_dir(Some("/cafe\u{0301}"), None, "agent"),
        "/caf\u{e9}",
        "names are in normal form"
    );
    assert_eq!(
        get_projects_dir(Some("/over"), Some("/cfg"), None, "agent"),
        "/over/projects"
    );
    assert_eq!(
        get_projects_dir(Some(""), None, Some("/home/u"), "agent"),
        "/home/u/.agent/projects"
    );
    assert_eq!(
        get_project_dir("/cfg/projects", "/work/my app"),
        "/cfg/projects/-work-my-app"
    );
}

#[test]
fn project_directories_of_long_paths_are_found_by_their_prefix() {
    let names = texts(&["other", "-work"]);
    assert_eq!(
        find_project_dir("/work", true, &names).as_deref(),
        Some("-work")
    );
    assert_eq!(find_project_dir("/work", false, &names), None);
    let long = format!("/{}", "x".repeat(250));
    let prefix = format!("-{}", "x".repeat(199));
    let other_hash = format!("{prefix}-zzz");
    let found = find_project_dir(&long, false, &vec![other_hash.clone()]);
    assert_eq!(found, Some(other_hash));
}

#[test]
fn worktrees_are_read_and_searched() {
    let out = b"worktree /repo\nHEAD abc\n\nworktree /repo-wt\nbranch refs/heads/x\n";
    let worktrees = parse_worktree_paths(out);
    assert_eq!(worktrees, texts(&["/repo", "/repo-wt"]));
    assert_eq!(
        search_paths("/repo", &worktrees),
        texts(&["/repo", "/repo-wt"])
    );
    let names = texts(&["-repo", "-repo-wt", "-unrelated"]);
    let picked = pick_worktree_dirs(&names, None, &worktrees, false);
    assert_eq!(
        picked,
        vec![(0, "/repo".to_string()), (1, "/repo-wt".to_string())]
    );
    let rest = pick_worktree_dirs(&names, Some("-repo"), &worktrees, false);
    assert_eq!(rest, vec![(1, "/repo-wt".to_string())]);
    assert!(merges_worktrees(&worktrees));
    assert!(!merges_worktrees(&texts(&["/repo"])));
}

#[test]
fn project_directories_where_case_is_ignored() {
    let worktrees = texts(&["C:\\Repo", "C:\\Repo-WT"]);
    let names = texts(&["c--repo", "C--REPO-wt", "c--REPO-WT", "\u{c9}t\u{e9}"]);
    assert!(pick_worktree_dirs(&names, None, &worktrees, false).is_empty());
    assert_eq!(
        pick_worktree_dirs(&names, None, &worktrees, true),
        vec![(0, "C:\\Repo".to_string()), (1, "C:\\Repo-WT".to_string())]
    );
    assert_eq!(
        pick_worktree_dirs(&names, Some("C--Repo"), &worktrees, true),
        vec![(1, "C:\\Repo-WT".to_string())]
    );
}

#[test]
fn file_names_of_sessions_and_agents() {
    assert_eq!(
        session_file_stem(&format!("{S1}.jsonl")).as_deref(),
        Some(S1)
    );
    assert_eq!(session_file_stem("notes.jsonl"), None);
    assert_eq!(session_file_stem(S1), None);
    assert_eq!(agent_file_id("agent-abc.jsonl").as_deref(), Some("abc"));
    assert_eq!(agent_file_id("abc.jsonl"), None);
    assert_eq!(agent_file_id("agent-abc.meta.json"), None);
}
