//! What a listing shows of titles and tags that were appended.
use claude_agent_rust_sdk::sessions::fork::{fork_file, fork_loaded};
use claude_agent_rust_sdk::sessions::jsonl::{parse_object_lines, text_of_entries};
use claude_agent_rust_sdk::sessions::lite::{parse_session_info_from_lite, LiteSessionFile};
use claude_agent_rust_sdk::sessions::mutations::{rename_line, tag_line};
use claude_agent_rust_sdk::sessions::store::{SDKSessionInfo, SessionStoreEntry};
use claude_agent_rust_sdk::sessions::store_queries::{entries_to_jsonl, info_of_entries};

const ID: &str = "11111111-1111-4111-8111-111111111111";
const PROMPT: &str = "{\"type\":\"user\",\"message\":{\"content\":\"hello\"}}\n";

fn listed(tail: &str) -> SDKSessionInfo {
    let lite = LiteSessionFile {
        mtime: 5,
        size: 7,
        head: PROMPT.to_string(),
        tail: tail.to_string(),
    };
    parse_session_info_from_lite(ID, &lite, None).expect("a session to list")
}

fn entry(text: &str) -> SessionStoreEntry {
    match serde_json::from_str(text).expect("JSON") {
        serde_json::Value::Object(m) => m,
        other => panic!("not an object: {other}"),
    }
}

#[test]
fn lines_have_the_compact_form() {
    assert_eq!(
        rename_line(ID, " a \"b\" \\ \u{1}\u{1f}\n\t\u{7f}\u{e9} ").unwrap(),
        format!(
            "{{\"type\":\"custom-title\",\"customTitle\":\"a \\\"b\\\" \\\\ \\u0001\\u001f\\n\\t\u{7f}\u{e9}\",\"sessionId\":\"{ID}\"}}\n"
        )
    );
    assert_eq!(
        tag_line(ID, None).unwrap(),
        format!("{{\"type\":\"tag\",\"tag\":\"\",\"sessionId\":\"{ID}\"}}\n")
    );
}

#[test]
fn values_have_the_compact_form() {
    let text = "{\"a\":[1,-20,true,false,null,[],{}],\"b\":{\"c\":18446744073709551615}}";
    assert_eq!(text_of_entries(&vec![entry(text)]), format!("{text}\n"));
}

#[test]
fn a_renamed_session_shows_its_title() {
    let first = rename_line(ID, "first").unwrap();
    for title in [
        "second",
        "say \"hi\"",
        "back\\slash",
        "\"customTitle\":\"nested\"",
        "\"customTitle\": \"nested\"",
        "customTitle",
        "tab\there",
    ] {
        let line = rename_line(ID, title).unwrap();
        for before in [
            String::new(),
            first.clone(),
            format!("{first}{first}"),
            "cut off \"customTitle\":\"open".to_string(),
            "\"customTitle\":\"open\\".to_string(),
            format!("{{\"aiTitle\":\"made up\"}}\n{first}"),
        ] {
            let info = listed(&format!("{before}{line}"));
            assert_eq!(info.custom_title.as_deref(), Some(title));
            assert_eq!(info.summary, title);
        }
    }
}

#[test]
fn a_new_title_wins_over_one_with_a_space_behind_its_key() {
    let line = rename_line(ID, "later").unwrap();
    let info = listed(&format!("{{\"customTitle\": \"spaced\"}}\n{line}"));
    assert_eq!(info.custom_title.as_deref(), Some("later"));
    let info = listed(&format!("{line}{{\"customTitle\": \"spaced\"}}\n"));
    assert_eq!(info.custom_title.as_deref(), Some("spaced"));
}

#[test]
fn a_tagged_session_shows_its_tag() {
    let first = tag_line(ID, Some("first")).unwrap();
    for tag in ["wip", "a \"quoted\" tag", "\"tag\": \"inner\"", "tag", "c:\\"] {
        let line = tag_line(ID, Some(tag)).unwrap();
        for before in [String::new(), first.clone(), "{\"tag\":\"v1\"\n".to_string()] {
            assert_eq!(listed(&format!("{before}{line}")).tag.as_deref(), Some(tag));
        }
    }
    let cleared = tag_line(ID, None).unwrap();
    assert_eq!(listed(&format!("{first}{cleared}")).tag, None);
}

#[test]
fn lines_of_a_store_begin_with_the_type() {
    let tag = entry("{\"sessionId\":\"s\",\"tag\":\"wip\",\"type\":\"tag\"}");
    let entries = vec![entry(PROMPT), tag];
    let text = entries_to_jsonl(&entries);
    assert!(text.contains("\n{\"type\":\"tag\",\"sessionId\":\"s\",\"tag\":\"wip\"}\n"));
    let info = info_of_entries(ID, &entries, 5, "/work").unwrap();
    assert_eq!(info.tag.as_deref(), Some("wip"));
}

#[test]
fn the_file_of_a_fork_is_read_back() {
    let content = format!(
        "{{\"type\":\"user\",\"uuid\":\"a\",\"message\":{{\"content\":\"one\"}}}}\n{}",
        "{\"type\":\"assistant\",\"uuid\":\"b\",\"parentUuid\":\"a\"}\n"
    );
    let (id, body) = fork_file(content.as_bytes(), ID, None, Some("branch")).unwrap();
    let entries = parse_object_lines(&body);
    assert_eq!(entries.len(), 3);
    for e in &entries {
        assert_eq!(e["sessionId"], id.as_str());
    }
    assert_eq!(entries[1]["parentUuid"], entries[0]["uuid"]);
    assert_eq!(entries[2]["customTitle"], "branch");
}

#[test]
fn a_file_and_a_store_fork_alike() {
    let content = format!(
        "{}{}{}",
        "{\"type\":\"user\",\"uuid\":\"a\",\"slug\":\"s\",\"n\":1}\n",
        "{\"type\":\"progress\",\"uuid\":\"p\",\"parentUuid\":\"a\"}\n",
        "{\"type\":\"assistant\",\"uuid\":\"b\",\"parentUuid\":\"p\"}\n",
    );
    let loaded = parse_object_lines(&content);
    let (_, body) = fork_file(content.as_bytes(), ID, None, Some("branch")).unwrap();
    let (_, stored) = fork_loaded(&loaded, ID, None, Some("branch")).unwrap();
    let written = parse_object_lines(&body);
    assert_eq!(written.len(), stored.len());
    for (w, s) in written.iter().zip(&stored) {
        let keys: Vec<&String> = w.keys().collect();
        assert_eq!(keys, s.keys().collect::<Vec<&String>>());
        for key in ["type", "forkedFrom", "customTitle", "n", "slug", "isSidechain"] {
            assert_eq!(w.get(key), s.get(key));
        }
    }
    assert_eq!(written[1]["parentUuid"], written[0]["uuid"]);
    assert_eq!(stored[1]["parentUuid"], stored[0]["uuid"]);
}
