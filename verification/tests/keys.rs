//! Keys of sessions and of their files.
use claude_agent_rust_sdk::error::ClaudeError;
use claude_agent_rust_sdk::sessions::key::{
    canonicalize_path, file_path_to_session_key, project_key_for_directory, sanitize_path,
    simple_hash, validate_subpath, SessionKey, SessionListSubkeysKey, MAX_SANITIZED_LENGTH,
};
use claude_agent_rust_sdk::sessions::path::{
    file_name, is_within, join_path, lexical_realpath, with_file_name,
};
use claude_agent_rust_sdk::sessions::windows::{file_path_to_session_key_on, validate_subpath_on};
use std::path::Path;
use unicode_normalization::UnicodeNormalization;

fn uuid() -> uuid::Uuid {
    uuid::Uuid::parse_str("11111111-2222-3333-4444-555555555555").unwrap()
}

#[test]
fn storage_key_main_and_subpath() {
    let id = uuid();
    let text = id.hyphenated().to_string();
    let main = SessionKey::new("proj", &text);
    assert_eq!(main.storage_key(), format!("proj/{}", id.hyphenated()));
    let sub = SessionKey::with_subpath("proj", &text, "subagents/agent-7").unwrap();
    assert_eq!(
        sub.storage_key(),
        format!("proj/{}/subagents/agent-7", id.hyphenated())
    );
}

#[test]
fn subkeys_start_with_the_prefix_and_the_main_key_does_not() {
    let prefix = SessionListSubkeysKey::new("proj", "s").prefix();
    assert_eq!(prefix, "proj/s/");
    let sub = SessionKey::with_subpath("proj", "s", "subagents/agent-7").unwrap();
    assert!(sub.storage_key().starts_with(&prefix));
    assert!(!SessionKey::new("proj", "s").storage_key().starts_with(&prefix));
}

#[test]
fn subpath_validation_rejects_traversal() {
    assert!(validate_subpath("subagents/agent-1").is_ok());
    assert!(validate_subpath("").is_err());
    assert!(validate_subpath("../escape").is_err());
    assert!(validate_subpath("subagents/../../etc/passwd").is_err());
    assert!(validate_subpath("/absolute").is_err());
    assert!(validate_subpath("a\0b").is_err());
    let id = uuid().hyphenated().to_string();
    assert!(SessionKey::with_subpath("p", &id, "../x").is_err());
}

fn config_text(e: ClaudeError) -> String {
    match e {
        ClaudeError::InvalidConfig(text) => text,
        other => panic!("expected InvalidConfig, got {other:?}"),
    }
}

#[test]
fn subpath_errors_say_what_is_wrong() {
    assert_eq!(
        config_text(validate_subpath("").unwrap_err()),
        "session subpath must not be empty (omit it for the main transcript)"
    );
    assert_eq!(
        config_text(validate_subpath("a\0b").unwrap_err()),
        "session subpath must not contain NUL"
    );
    assert_eq!(
        config_text(validate_subpath("/x").unwrap_err()),
        "session subpath must be relative, got \"/x\""
    );
    assert_eq!(
        config_text(validate_subpath("a/../b\n").unwrap_err()),
        "session subpath must not traverse upward ('..'), got \"a/../b\\n\""
    );
}

#[test]
fn simple_hash_matches_reference_vectors() {
    assert_eq!(simple_hash(""), "0");
    assert_eq!(simple_hash("a"), simple_hash("a"));
    assert_eq!(simple_hash("hello"), reference_hash("hello"));
    assert_eq!(
        simple_hash("/Users/x/Documents/project"),
        reference_hash("/Users/x/Documents/project")
    );
}

/// The same hash in 64-bit arithmetic.
fn reference_hash(s: &str) -> String {
    let mut h: i64 = 0;
    for ch in s.chars() {
        let c = ch as i64;
        h = (h << 5) - h + c;
        h &= 0xFFFF_FFFF;
        if h >= 0x8000_0000 {
            h -= 0x1_0000_0000;
        }
    }
    let mut n = h.unsigned_abs();
    if n == 0 {
        return "0".into();
    }
    let digits = b"0123456789abcdefghijklmnopqrstuvwxyz";
    let mut out = Vec::new();
    while n > 0 {
        out.push(digits[(n % 36) as usize]);
        n /= 36;
    }
    out.reverse();
    String::from_utf8(out).unwrap()
}

#[test]
fn hashes_of_many_texts() {
    assert_eq!(simple_hash("a"), "2p");
    assert_eq!(simple_hash("hello"), "1n1e4y");
    let mut text = String::new();
    for i in 0..300u32 {
        text.push(char::from_u32(0x20 + i * 37).unwrap_or('x'));
        assert_eq!(simple_hash(&text), reference_hash(&text));
    }
}

#[test]
fn sanitize_long_path_gets_hash_suffix() {
    let short = "abc/def";
    assert_eq!(sanitize_path(short), "abc-def");

    let long: String = std::iter::repeat_n('x', 250).collect();
    let out = sanitize_path(&long);
    assert!(out.len() > MAX_SANITIZED_LENGTH);
    assert!(out.starts_with(&"x".repeat(MAX_SANITIZED_LENGTH)));
    assert_eq!(out, format!("{}-{}", "x".repeat(200), simple_hash(&long)));
}

#[test]
fn sanitized_paths_are_stable_file_names() {
    let once = sanitize_path("/Users/me/my project (v2)");
    assert_eq!(once, "-Users-me-my-project--v2-");
    assert_eq!(sanitize_path(&once), once);
    assert_eq!(sanitize_path(&"y".repeat(200)), "y".repeat(200));
}

#[test]
fn nfc_normalization_stable() {
    let nfc = "café";
    let nfd = "cafe\u{0301}";
    let normalized_precomposed: String = nfc.nfc().collect();
    let normalized_decomposed: String = nfd.nfc().collect();
    assert_eq!(
        sanitize_path(&normalized_precomposed),
        sanitize_path(&normalized_decomposed)
    );
}

#[test]
fn project_keys_are_normalized() {
    let nfc = project_key_for_directory(Some("/caf\u{e9}"), None, "/");
    let nfd = project_key_for_directory(Some("/cafe\u{0301}"), None, "/");
    assert_eq!(nfc, nfd);
    assert_eq!(nfc, "-caf-");
    assert_eq!(project_key_for_directory(None, None, "/work/app"), "-work-app");
    assert_eq!(
        project_key_for_directory(Some("link"), Some("/real/dir"), "/work"),
        "-real-dir"
    );
}

#[test]
fn canonicalize_nonexistent_path_absolutizes_and_collapses() {
    assert_eq!(
        canonicalize_path("/nonexistent/foo/../bar", None, "/"),
        "/nonexistent/bar"
    );
    assert_eq!(canonicalize_path("/a/b/c/../../d", None, "/"), "/a/d");
    assert_eq!(canonicalize_path("/a/./b/./c", None, "/"), "/a/b/c");
}

#[test]
fn canonicalize_nonexistent_relative_path_is_absolutized() {
    let out = canonicalize_path("this-dir-does-not-exist/sub", None, "/some/cwd");
    let expected = Path::new("/some/cwd")
        .join("this-dir-does-not-exist")
        .join("sub");
    assert_eq!(out, expected.to_string_lossy());
    assert!(
        Path::new(&out).is_absolute(),
        "canonicalized relative path must be absolute"
    );
}

#[test]
fn file_path_to_key_main_transcript() {
    let id = uuid();
    let projects = "/root/projects";
    let file = format!("{projects}/myproj/{}.jsonl", id.hyphenated());
    let key = file_path_to_session_key(&file, projects).unwrap();
    assert_eq!(key.project_key, "myproj");
    assert_eq!(key.session_id, id.hyphenated().to_string());
    assert_eq!(key.subpath, None);
}

#[test]
fn file_path_to_key_subagent_transcript() {
    let id = uuid();
    let projects = "/root/projects";
    let file = format!("{projects}/myproj/{}/subagents/agent-7.jsonl", id.hyphenated());
    let key = file_path_to_session_key(&file, projects).unwrap();
    assert_eq!(key.project_key, "myproj");
    assert_eq!(key.session_id, id.hyphenated().to_string());
    assert_eq!(key.subpath.as_deref(), Some("subagents/agent-7"));
}

#[test]
fn file_path_to_key_rejects_outside_and_bad_shape() {
    let projects = "/root/projects";
    assert!(file_path_to_session_key("/elsewhere/x.jsonl", projects).is_none());
    assert!(file_path_to_session_key("/root/projects/only.jsonl", projects).is_none());
    let up = "/root/projects/../secrets/s.jsonl";
    assert!(file_path_to_session_key(up, projects).is_none());
}

#[test]
fn file_path_to_key_accepts_arbitrary_stems() {
    let projects = "/root/projects";
    let key = file_path_to_session_key("/root/projects/proj/abc-123.jsonl", projects).unwrap();
    assert_eq!(key.project_key, "proj");
    assert_eq!(key.session_id, "abc-123");
    assert_eq!(key.subpath, None);

    let sub = "/root/projects/proj/not-a-uuid/subagents/agent-x.jsonl";
    let sub_key = file_path_to_session_key(sub, projects).unwrap();
    assert_eq!(sub_key.project_key, "proj");
    assert_eq!(sub_key.session_id, "not-a-uuid");
    assert_eq!(sub_key.subpath.as_deref(), Some("subagents/agent-x"));
}

// ------- paths -------

const PATHS: [&str; 24] = [
    "", "/", ".", "..", "a", "a/", "a/.", "./a", "./", "a/b", "a//b", "/a", "//a", "/a/", "/a/b/",
    "/a/./b", "/./a", "a/..", "a/../b", "/..", "x.jsonl", "/p/x.jsonl", "a/./.", "a.b/c.d",
];

#[test]
fn file_names_are_those_of_the_standard_library() {
    for p in PATHS {
        let expected = Path::new(p).file_name().map(|n| n.to_str().unwrap());
        assert_eq!(file_name(p).as_deref(), expected, "file name of {p:?}");
    }
}

#[test]
fn renamed_files_are_those_of_the_standard_library() {
    for p in PATHS {
        let expected = Path::new(p).with_file_name("n.txt");
        assert_eq!(
            with_file_name(p, "n.txt"),
            expected.to_str().unwrap(),
            "{p:?} with another name"
        );
    }
}

#[test]
fn joined_paths_are_those_of_the_standard_library() {
    for p in PATHS {
        for q in ["n", "/n", "a/b"] {
            let expected = Path::new(p).join(q);
            assert_eq!(join_path(p, q), expected.to_str().unwrap(), "{p:?} and {q:?}");
        }
    }
}

#[test]
fn containment_is_that_of_the_standard_library() {
    for p in PATHS {
        for q in PATHS {
            assert_eq!(
                is_within(p, q),
                Path::new(p).starts_with(q),
                "{p:?} under {q:?}"
            );
        }
    }
}

#[test]
fn real_paths_collapse_against_the_current_directory() {
    assert_eq!(lexical_realpath("../x", "/a/b"), "/a/x");
    assert_eq!(lexical_realpath("../../../x", "/a/b"), "/x");
    assert_eq!(lexical_realpath("/", "/a"), "/");
    assert_eq!(lexical_realpath(".", "/a/b"), "/a/b");
}

// ------- Windows -------

#[test]
fn subpaths_on_windows() {
    for good in ["subagents/agent-1", "subagents\\agent-1", "ab:c", "1:c"] {
        assert!(validate_subpath_on(good, true).is_ok(), "{good}");
        assert!(validate_subpath_on(good, false).is_ok(), "{good}");
    }
    assert!(validate_subpath_on("a:b/c", true).is_err());
    assert!(validate_subpath_on("a:b/c", false).is_ok());
    for bad in ["", "a\0b", "C:\\x", "C:x", "\\x", "/x", "\\\\server\\share", "a\\..\\b", "a/..\\b"] {
        assert!(validate_subpath_on(bad, true).is_err(), "{bad}");
        let key = SessionKey::with_subpath_on("p", "s", bad, true);
        assert!(matches!(key, Err(ClaudeError::InvalidConfig(_))), "{bad}");
    }
    assert!(validate_subpath_on("a\\..\\b", false).is_ok());
    assert!(validate_subpath_on("a/../b", false).is_err());
    assert_eq!(
        config_text(validate_subpath_on("..\\b", true).unwrap_err()),
        "session subpath must not traverse upward ('..'), got \"..\\\\b\""
    );
    assert_eq!(
        config_text(validate_subpath_on("C:b", true).unwrap_err()),
        "session subpath must be relative, got \"C:b\""
    );
    let key = SessionKey::with_subpath_on("p", "s", "a\\b", true).unwrap();
    assert_eq!(key.storage_key(), "p/s/a\\b");
}

#[test]
fn keys_of_files_on_windows() {
    let projects = "C:\\Users\\u\\projects";
    let main = file_path_to_session_key_on("C:\\Users\\u\\projects\\proj\\abc.jsonl", projects, true);
    assert_eq!(main.unwrap().storage_key(), "proj/abc");
    let file = "C:\\Users\\u\\projects\\proj\\abc\\subagents\\agent-7.jsonl";
    let sub = file_path_to_session_key_on(file, projects, true).unwrap();
    assert_eq!(sub.subpath.as_deref(), Some("subagents/agent-7"));
    let mixed = "C:/Users/u/projects/proj\\abc.jsonl";
    assert!(file_path_to_session_key_on(mixed, projects, true).is_some());
    let small = "c:\\Users\\u\\projects\\proj\\abc.jsonl";
    assert!(file_path_to_session_key_on(small, projects, true).is_some(), "one drive");
    let other = "D:\\Users\\u\\projects\\proj\\abc.jsonl";
    assert!(file_path_to_session_key_on(other, projects, true).is_none());
    assert!(file_path_to_session_key_on("\\x\\proj\\abc.jsonl", projects, true).is_none());
    assert!(file_path_to_session_key_on(file, projects, false).is_none());
    let posix = file_path_to_session_key_on("/p/proj/abc.jsonl", "/p", false);
    assert_eq!(posix.unwrap().storage_key(), "proj/abc");
}
