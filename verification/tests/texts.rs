//! Texts, times and values against the standard library and the crates below.
use claude_agent_rust_sdk::json::{field_is, get_flag, get_full_text, get_list, get_object, get_text, parse};
use claude_agent_rust_sdk::sessions::mutations::sanitize_unicode;
use claude_agent_rust_sdk::text::{
    contains_text, ends_with, is_whitespace, join, replace_char, split, starts_with, strip_prefix,
    strip_suffix, trim, trim_end, trim_start,
};
use claude_agent_rust_sdk::time::days_in_month;
use serde_json::Value;

const SAMPLES: [&str; 10] = [
    "", " ", "a", " a b ", "\t\na\u{a0}", "\u{2003}x\u{3000}", "a,b,,c", ",", "aaa", "é☕😀",
];

#[test]
fn white_space_is_that_of_the_standard_library() {
    for n in 0..=0x10FFFFu32 {
        if let Some(c) = char::from_u32(n) {
            assert_eq!(is_whitespace(c), c.is_whitespace(), "U+{n:04X}");
        }
    }
}

#[test]
fn texts_are_cut_as_by_the_standard_library() {
    for s in SAMPLES {
        assert_eq!(trim(s), s.trim());
        assert_eq!(trim_start(s), s.trim_start());
        assert_eq!(trim_end(s), s.trim_end());
        let pieces: Vec<&str> = s.split(',').collect();
        assert_eq!(split(s, ','), pieces);
        assert_eq!(join(&split(s, ','), ","), s);
        assert_eq!(replace_char(s, 'a', 'é'), s.replace('a', "é"));
        for p in ["", "a", " ", "aa", ",b", "☕😀"] {
            assert_eq!(starts_with(s, p), s.starts_with(p));
            assert_eq!(ends_with(s, p), s.ends_with(p));
            assert_eq!(contains_text(s, p), s.contains(p), "{s:?} in {p:?}");
            assert_eq!(strip_prefix(s, p).as_deref(), s.strip_prefix(p));
            assert_eq!(strip_suffix(s, p).as_deref(), s.strip_suffix(p));
        }
    }
}

#[test]
fn lengths_of_months() {
    let lengths: Vec<Option<i64>> = (0..=13).map(|m| days_in_month(2023, m)).collect();
    let known = [31, 28, 31, 30, 31, 30, 31, 31, 30, 31, 30, 31];
    assert_eq!(lengths[0], None);
    assert_eq!(lengths[13], None);
    for (i, n) in known.iter().enumerate() {
        assert_eq!(lengths[i + 1], Some(*n));
    }
    assert_eq!(days_in_month(2024, 2), Some(29));
    assert_eq!(days_in_month(1900, 2), Some(28));
    assert_eq!(days_in_month(2000, 2), Some(29));
}

#[test]
fn fields_of_objects() {
    let value = parse(r#"{"t":"x","e":"","f":true,"l":[1],"o":{"n":null}}"#).unwrap();
    let m = value.as_object().unwrap();
    assert_eq!(get_text(m, "t"), Some("x"));
    assert_eq!(get_text(m, "f"), None);
    assert_eq!(get_full_text(m, "e"), None);
    assert!(get_flag(m, "f"));
    assert!(!get_flag(m, "t"));
    assert!(field_is(m, "t", "x"));
    assert!(!field_is(m, "missing", ""));
    assert_eq!(get_list(m, "l").map(Vec::len), Some(1));
    assert!(get_list(m, "o").is_none());
    assert_eq!(get_object(m, "o").and_then(|o| o.get("n")), Some(&Value::Null));
    assert!(parse("{").is_none());
}

#[test]
fn sanitized_texts_hold_nothing_hidden() {
    let dirty: String = ('\u{200b}'..='\u{206f}').collect();
    let clean = sanitize_unicode(&format!("a{dirty}b"));
    assert!(clean.starts_with('a') && clean.ends_with('b'));
    assert!(!clean.contains('\u{200b}') && !clean.contains('\u{202e}'));
    assert_eq!(sanitize_unicode(&clean), clean);
}
