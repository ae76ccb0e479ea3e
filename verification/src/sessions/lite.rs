//! Session metadata from the head and the tail of a transcript, without a
//! parse of the whole.
use vstd::prelude::*;

use crate::json::{parsed, Json};
use crate::sessions::key::has_char;
use crate::sessions::prompt::{extract_first_prompt_from_head, first_prompt_of};
use crate::sessions::store::{info_view, Info, SDKSessionInfo};
use crate::text::{
    concat3, contains_text, find_from, find_pos, from_range, has_text, nonempty, nonempty_view,
    split_on, starts_with, text_view, text_views, to_chars,
};
use crate::time::{iso_ms, parse_iso8601_ms};

verus! {

broadcast use vstd::string::group_string_axioms;

/// Size of the head and of the tail that are read of a transcript (64 KiB).
pub const LITE_READ_BUF_SIZE: usize = 65536;

// ---------------------------------------------------------------------------
// Session identifiers
// ---------------------------------------------------------------------------

/// Whether `c` is a hexadecimal digit, small or capital.
pub open spec fn is_hex(c: char) -> bool {
    let n = c as u32;
    48 <= n <= 57 || 65 <= n <= 70 || 97 <= n <= 102
}

/// Whether position `i` of a canonical UUID holds a hyphen.
pub open spec fn is_hyphen_place(i: int) -> bool {
    i == 8 || i == 13 || i == 18 || i == 23
}

/// Whether `s` is a canonical hyphenated UUID: groups of 8, 4, 4, 4 and 12
/// hexadecimal digits.
pub open spec fn is_uuid(s: Seq<char>) -> bool {
    &&& s.len() == 36
    &&& forall|i: int|
        0 <= i < 36 ==> if is_hyphen_place(i) {
            #[trigger] s[i] == '-'
        } else {
            is_hex(s[i])
        }
}

/// Whether `c` is a hexadecimal digit, small or capital.
fn check_hex(c: char) -> (r: bool)
    ensures
        r == is_hex(c),
{
    let n: u32 = c as u32;
    (48 <= n && n <= 57) || (65 <= n && n <= 70) || (97 <= n && n <= 102)
}

/// Whether `s` is a canonical hyphenated UUID.
fn check_uuid(s: &str) -> (r: bool)
    ensures
        r == is_uuid(s@),
{
    let cs = to_chars(s);
    if cs.len() != 36 {
        return false;
    }
    let mut i: usize = 0;
    while i < 36
        invariant
            cs@ == s@,
            s@.len() == 36,
            i <= 36,
            forall|j: int|
                0 <= j < i ==> if is_hyphen_place(j) {
                    #[trigger] s@[j] == '-'
                } else {
                    is_hex(s@[j])
                },
        decreases 36 - i,
    {
        if i == 8 || i == 13 || i == 18 || i == 23 {
            if cs[i] != '-' {
                proof {
                    assert(is_hyphen_place(i as int));
                    assert(s@[i as int] != '-');
                }
                return false;
            }
        } else if !check_hex(cs[i]) {
            proof {
                assert(!is_hyphen_place(i as int));
                assert(!is_hex(s@[i as int]));
            }
            return false;
        }
        i = i + 1;
    }
    true
}

/// Returns `Some(s)` if `s` is a valid canonical hyphenated UUID, else `None`.
pub fn validate_uuid(maybe_uuid: &str) -> (r: Option<&str>)
    ensures
        match r {
            Some(s) => is_uuid(maybe_uuid@) && s@ == maybe_uuid@,
            None => !is_uuid(maybe_uuid@),
        },
{
    if check_uuid(maybe_uuid) {
        Some(maybe_uuid)
    } else {
        None
    }
}

// ---------------------------------------------------------------------------
// Fields of JSON texts that may be cut off
// ---------------------------------------------------------------------------

/// A text as the JSON string with that text between its quotes has it. Where
/// it is no such string, the text itself.
pub open spec fn unescaped(raw: Seq<char>) -> Seq<char> {
    if raw.contains('\\') {
        match parsed(seq!['"'] + raw + seq!['"']) {
            Some(Json::Str(s)) => s,
            _ => raw,
        }
    } else {
        raw
    }
}

/// The position of the quote that closes the JSON string which is open at
/// position `i`, or a position behind the text where none does.
pub open spec fn string_end(s: Seq<char>, i: int) -> int
    decreases s.len() + 2 - i,
{
    if i < 0 || i >= s.len() {
        i
    } else if s[i] == '\\' {
        string_end(s, i + 2)
    } else if s[i] == '"' {
        i
    } else {
        string_end(s, i + 1)
    }
}

/// What stands before a string value under a key: the key, a colon, and with
/// `spaced` a space.
pub open spec fn field_mark(key: Seq<char>, spaced: bool) -> Seq<char> {
    if spaced {
        "\""@ + key + "\": \""@
    } else {
        "\""@ + key + "\":\""@
    }
}

/// Where the next string value under a key begins, from position `from` on:
/// behind the mark that comes first, be it with a space or without.
pub open spec fn next_value(s: Seq<char>, key: Seq<char>, from: int) -> Option<int> {
    let plain = field_mark(key, false);
    let spaced = field_mark(key, true);
    match (find_from(s, plain, from), find_from(s, spaced, from)) {
        (Some(i), Some(j)) => if i <= j {
            Some(i + plain.len())
        } else {
            Some(j + spaced.len())
        },
        (Some(i), None) => Some(i + plain.len()),
        (None, Some(j)) => Some(j + spaced.len()),
        (None, None) => None,
    }
}

/// The first string value under a key.
pub open spec fn first_field(s: Seq<char>, key: Seq<char>) -> Option<Seq<char>> {
    match next_value(s, key, 0) {
        Some(start) => {
            let end = string_end(s, start);
            if end < s.len() {
                Some(unescaped(s.subrange(start, end)))
            } else {
                None
            }
        },
        None => None,
    }
}

/// The last string value under a key from position `from` on; `otherwise`
/// where there is none.
pub open spec fn last_value(
    s: Seq<char>,
    key: Seq<char>,
    from: int,
    otherwise: Option<Seq<char>>,
) -> Option<Seq<char>>
    decreases s.len() + 1 - from,
{
    match next_value(s, key, from) {
        Some(start) => {
            let end = string_end(s, start);
            if from <= start <= end < s.len() {
                last_value(s, key, end + 1, Some(unescaped(s.subrange(start, end))))
            } else {
                otherwise
            }
        },
        None => otherwise,
    }
}

/// The last string value under a key.
pub open spec fn last_field(s: Seq<char>, key: Seq<char>) -> Option<Seq<char>> {
    last_value(s, key, 0, None)
}

/// A text as the JSON string with that text between its quotes has it, where
/// `value` is what that string reads as.
pub fn unescaped_from(raw: &str, value: Option<serde_json::Value>) -> (r: String)
    ensures
        r@ == (match crate::json::json_view(value) {
            Some(Json::Str(s)) => s,
            _ => raw@,
        }),
{
    match &value {
        Some(v) => match v.as_str() {
            Some(s) => s.to_owned(),
            None => raw.to_owned(),
        },
        None => raw.to_owned(),
    }
}

/// Unescapes a JSON string value extracted as raw text.
pub fn unescape_json_string(raw: &str) -> (r: String)
    ensures
        r@ == unescaped(raw@),
{
    if !has_char(raw, '\\') {
        return raw.to_owned();
    }
    let quoted = concat3("\"", raw, "\"");
    proof {
        reveal_strlit("\"");
        assert("\""@ =~= seq!['"']);
    }
    unescaped_from(raw, crate::json::parse(&quoted))
}

/// The position of the quote that closes the JSON string which is open at
/// position `from`.
fn close_quote(s: &Vec<char>, from: usize) -> (r: Option<usize>)
    requires
        from <= s@.len(),
    ensures
        match r {
            Some(i) => string_end(s@, from as int) == i && from <= i < s@.len(),
            None => string_end(s@, from as int) >= s@.len(),
        },
{
    let n: usize = s.len();
    let mut i: usize = from;
    while i < n
        invariant
            n == s@.len(),
            from <= i <= n,
            string_end(s@, from as int) == string_end(s@, i as int),
        decreases n - i,
    {
        if s[i] == '\\' {
            if n - i < 2 {
                proof {
                    assert(string_end(s@, i as int + 2) == i + 2);
                }
                return None;
            }
            i = i + 2;
        } else if s[i] == '"' {
            return Some(i);
        } else {
            i = i + 1;
        }
    }
    None
}

/// What stands before a string value under a key.
fn mark_of(key: &str, spaced: bool) -> (r: Vec<char>)
    ensures
        r@ == field_mark(key@, spaced),
{
    if spaced {
        to_chars(&concat3("\"", key, "\": \""))
    } else {
        to_chars(&concat3("\"", key, "\":\""))
    }
}

/// Where the next string value under a key begins, from position `from` on.
/// `plain` and `spaced` are the key's marks.
fn find_value(
    s: &Vec<char>,
    plain: &Vec<char>,
    spaced: &Vec<char>,
    Ghost(key): Ghost<Seq<char>>,
    from: usize,
) -> (r: Option<usize>)
    requires
        plain@ == field_mark(key, false),
        spaced@ == field_mark(key, true),
        from <= s@.len(),
    ensures
        match r {
            Some(start) => next_value(s@, key, from as int) == Some(start as int) && from <= start
                <= s@.len(),
            None => next_value(s@, key, from as int) is None,
        },
{
    let n: usize = s.len();
    proof {
        crate::text::lemma_find_from(s@, plain@, from as int);
        crate::text::lemma_find_from(s@, spaced@, from as int);
        assert(s@.len() == n);
    }
    match (find_pos(s, plain, from), find_pos(s, spaced, from)) {
        (Some(i), Some(j)) => if i <= j {
            Some(i + plain.len())
        } else {
            Some(j + spaced.len())
        },
        (Some(i), None) => Some(i + plain.len()),
        (None, Some(j)) => Some(j + spaced.len()),
        (None, None) => None,
    }
}

/// Extracts the first `"key":"value"` / `"key": "value"` string value.
pub fn extract_json_string_field(text: &str, key: &str) -> (r: Option<String>)
    ensures
        text_view(r) == first_field(text@, key@),
{
    let s = to_chars(text);
    let plain = mark_of(key, false);
    let spaced = mark_of(key, true);
    match find_value(&s, &plain, &spaced, Ghost(key@), 0) {
        Some(start) => match close_quote(&s, start) {
            Some(end) => Some(unescape_json_string(&from_range(&s, start, end))),
            None => None,
        },
        None => None,
    }
}

/// Like [`extract_json_string_field`] but returns the last occurrence.
pub fn extract_last_json_string_field(text: &str, key: &str) -> (r: Option<String>)
    ensures
        text_view(r) == last_field(text@, key@),
{
    let s = to_chars(text);
    let plain = mark_of(key, false);
    let spaced = mark_of(key, true);
    let n: usize = s.len();
    let mut from: usize = 0;
    let mut last: Option<String> = None;
    loop
        invariant
            n == s@.len(),
            s@ == text@,
            from <= n,
            plain@ == field_mark(key@, false),
            spaced@ == field_mark(key@, true),
            last_field(text@, key@) == last_value(s@, key@, from as int, text_view(last)),
        decreases n + 1 - from,
    {
        match find_value(&s, &plain, &spaced, Ghost(key@), from) {
            Some(start) => match close_quote(&s, start) {
                Some(end) => {
                    last = Some(unescape_json_string(&from_range(&s, start, end)));
                    from = end + 1;
                },
                None => {
                    return last;
                },
            },
            None => {
                return last;
            },
        }
    }
}

// ---------------------------------------------------------------------------
// Metadata
// ---------------------------------------------------------------------------

/// Head and tail of a transcript, with its modification time and its size.
#[derive(Debug)]
pub struct LiteSessionFile {
    /// Modification time in milliseconds since epoch.
    pub mtime: i64,
    /// Size in bytes.
    pub size: i64,
    /// The text at the start.
    pub head: String,
    /// The text at the end.
    pub tail: String,
}

/// The one, or where there is none the other.
pub open spec fn or_else(a: Option<Seq<char>>, b: Option<Seq<char>>) -> Option<Seq<char>> {
    match a {
        Some(x) => Some(x),
        None => b,
    }
}

/// The last string value under a key, where it is not empty.
pub open spec fn last_full(s: Seq<char>, key: Seq<char>) -> Option<Seq<char>> {
    nonempty_view(last_field(s, key))
}

/// The first string value under a key, where it is not empty.
pub open spec fn first_full(s: Seq<char>, key: Seq<char>) -> Option<Seq<char>> {
    nonempty_view(first_field(s, key))
}

/// The text before the first line break.
pub open spec fn first_line(s: Seq<char>) -> Seq<char> {
    split_on(s, '\n')[0]
}

/// Whether the first line of a transcript marks it as a side chain.
pub open spec fn is_sidechain_head(head: Seq<char>) -> bool {
    has_text(first_line(head), "\"isSidechain\":true"@) || has_text(
        first_line(head),
        "\"isSidechain\": true"@,
    )
}

/// The title of a session: the last one that a user set, or else the last one
/// that was generated. The tail comes before the head.
pub open spec fn title_in(head: Seq<char>, tail: Seq<char>) -> Option<Seq<char>> {
    or_else(
        last_full(tail, "customTitle"@),
        or_else(
            last_full(head, "customTitle"@),
            or_else(last_full(tail, "aiTitle"@), last_full(head, "aiTitle"@)),
        ),
    )
}

/// The first prompt in a head.
pub open spec fn head_prompt(head: Seq<char>) -> Option<Seq<char>> {
    nonempty_view(Some(first_prompt_of(split_on(head, '\n'), Seq::empty())))
}

/// The last line that begins as an entry of type `tag` does.
pub open spec fn last_tag_line(lines: Seq<Seq<char>>) -> Option<Seq<char>>
    decreases lines.len(),
{
    if lines.len() == 0 {
        None
    } else if "{\"type\":\"tag\""@.is_prefix_of(lines.last()) {
        Some(lines.last())
    } else {
        last_tag_line(lines.drop_last())
    }
}

/// The tag in a tail: that of the last entry of type `tag`.
pub open spec fn tag_in(tail: Seq<char>) -> Option<Seq<char>> {
    match last_tag_line(split_on(tail, '\n')) {
        Some(line) => last_full(line, "tag"@),
        None => None,
    }
}

/// The summary of a session: its title, its last prompt, a summary, or its
/// first prompt.
pub open spec fn summary_in(head: Seq<char>, tail: Seq<char>) -> Option<Seq<char>> {
    or_else(
        title_in(head, tail),
        or_else(
            last_full(tail, "lastPrompt"@),
            or_else(last_full(tail, "summary"@), head_prompt(head)),
        ),
    )
}

/// The time in the first timestamp of a head.
pub open spec fn created_in(head: Seq<char>) -> Option<int> {
    match first_field(head, "timestamp"@) {
        Some(ts) => iso_ms(ts),
        None => None,
    }
}

/// The metadata of a session by its head and its tail. A side chain and a
/// session without a summary have none.
pub open spec fn lite_info(
    session_id: Seq<char>,
    mtime: i64,
    size: i64,
    head: Seq<char>,
    tail: Seq<char>,
    project_path: Option<Seq<char>>,
) -> Option<Info> {
    if is_sidechain_head(head) {
        None
    } else {
        match summary_in(head, tail) {
            Some(summary) => Some(
                Info {
                    session_id,
                    summary,
                    last_modified: mtime,
                    file_size: Some(size),
                    custom_title: title_in(head, tail),
                    first_prompt: head_prompt(head),
                    git_branch: or_else(
                        last_full(tail, "gitBranch"@),
                        first_full(head, "gitBranch"@),
                    ),
                    cwd: or_else(first_full(head, "cwd"@), project_path),
                    tag: tag_in(tail),
                    created_at: match created_in(head) {
                        Some(ms) => Some(ms as i64),
                        None => None,
                    },
                },
            ),
            None => None,
        }
    }
}

/// The last string value under a key, where it is not empty.
fn read_last_full(text: &str, key: &str) -> (r: Option<String>)
    ensures
        text_view(r) == last_full(text@, key@),
{
    nonempty(extract_last_json_string_field(text, key))
}

/// The first string value under a key, where it is not empty.
fn read_first_full(text: &str, key: &str) -> (r: Option<String>)
    ensures
        text_view(r) == first_full(text@, key@),
{
    nonempty(extract_json_string_field(text, key))
}

/// The title of a session.
fn read_title(head: &str, tail: &str) -> (r: Option<String>)
    ensures
        text_view(r) == title_in(head@, tail@),
{
    if let Some(t) = read_last_full(tail, "customTitle") {
        return Some(t);
    }
    if let Some(t) = read_last_full(head, "customTitle") {
        return Some(t);
    }
    if let Some(t) = read_last_full(tail, "aiTitle") {
        return Some(t);
    }
    read_last_full(head, "aiTitle")
}

/// The tag in a tail.
fn read_tag(tail: &str) -> (r: Option<String>)
    ensures
        text_view(r) == tag_in(tail@),
{
    let lines = crate::text::split(tail, '\n');
    let ghost all = split_on(tail@, '\n');
    let mut n: usize = lines.len();
    proof {
        assert(all.take(n as int) =~= all);
    }
    while n > 0
        invariant
            all == text_views(lines@),
            all == split_on(tail@, '\n'),
            n <= lines@.len(),
            last_tag_line(all) == last_tag_line(all.take(n as int)),
        decreases n,
    {
        proof {
            assert(all.take(n as int).last() == lines@[n as int - 1]@);
            assert(all.take(n as int).drop_last() =~= all.take(n as int - 1));
        }
        if starts_with(&lines[n - 1], "{\"type\":\"tag\"") {
            return read_last_full(&lines[n - 1], "tag");
        }
        n = n - 1;
    }
    None
}

/// Whether the first line of a transcript marks it as a side chain.
fn check_sidechain_head(head: &str) -> (r: bool)
    ensures
        r == is_sidechain_head(head@),
{
    proof {
        crate::text::law_join_undoes_split(head@, '\n');
    }
    let lines = crate::text::split(head, '\n');
    proof {
        assert(text_views(lines@)[0] == lines@[0]@);
    }
    contains_text(&lines[0], "\"isSidechain\":true") || contains_text(
        &lines[0],
        "\"isSidechain\": true",
    )
}

/// Parses [`SDKSessionInfo`] fields from a lite session read.
///
/// Returns `None` for sidechain sessions or metadata-only sessions with no
/// extractable summary.
pub fn parse_session_info_from_lite(
    session_id: &str,
    lite: &LiteSessionFile,
    project_path: Option<&str>,
) -> (r: Option<SDKSessionInfo>)
    ensures
        info_view(r) == lite_info(
            session_id@,
            lite.mtime,
            lite.size,
            lite.head@,
            lite.tail@,
            crate::text::str_view(project_path),
        ),
{
    let head: &str = &lite.head;
    let tail: &str = &lite.tail;
    if check_sidechain_head(head) {
        return None;
    }
    let custom_title = read_title(head, tail);
    let first_prompt = nonempty(Some(extract_first_prompt_from_head(head)));
    let summary: String = match &custom_title {
        Some(t) => t.clone(),
        None => match read_last_full(tail, "lastPrompt") {
            Some(t) => t,
            None => match read_last_full(tail, "summary") {
                Some(t) => t,
                None => match &first_prompt {
                    Some(t) => t.clone(),
                    None => {
                        return None;
                    },
                },
            },
        },
    };
    let git_branch = match read_last_full(tail, "gitBranch") {
        Some(b) => Some(b),
        None => read_first_full(head, "gitBranch"),
    };
    let cwd = match read_first_full(head, "cwd") {
        Some(c) => Some(c),
        None => match project_path {
            Some(p) => Some(p.to_owned()),
            None => None,
        },
    };
    let tag = read_tag(tail);
    let created_at = match extract_json_string_field(head, "timestamp") {
        Some(ts) => parse_iso8601_ms(&ts),
        None => None,
    };
    Some(
        SDKSessionInfo {
            session_id: session_id.to_owned(),
            summary,
            last_modified: lite.mtime,
            file_size: Some(lite.size),
            custom_title,
            first_prompt,
            git_branch,
            cwd,
            tag,
            created_at,
        },
    )
}

/// Metadata never names an empty summary, title, prompt, branch or tag.
pub proof fn law_lite_info_has_no_empty_fields(
    session_id: Seq<char>,
    mtime: i64,
    size: i64,
    head: Seq<char>,
    tail: Seq<char>,
    project_path: Option<Seq<char>>,
)
    ensures
        match lite_info(session_id, mtime, size, head, tail, project_path) {
            Some(info) => {
                &&& info.summary.len() > 0
                &&& info.custom_title matches Some(t) ==> t.len() > 0 && info.summary == t
                &&& info.first_prompt matches Some(p) ==> p.len() > 0
                &&& info.git_branch matches Some(b) ==> b.len() > 0
                &&& info.tag matches Some(t) ==> t.len() > 0
                &&& info.cwd matches Some(c) ==> c.len() > 0 || project_path == Some(c)
            },
            None => true,
        },
{
}

/// What a title, a summary and a branch are taken from. A title that a user
/// set comes before a generated one, and the tail before the head. Where there
/// is no title, the summary is the last prompt in the tail, else the last
/// summary in the tail, and the first prompt only where there is neither. An
/// empty text counts as none. The branch is the last one in the tail, else the
/// first one in the head; the directory is the first one in the head, else the
/// given one. A session without any of these texts, or whose first line marks
/// it as a side chain, is not shown, and every other one is.
pub proof fn law_lite_info_sources(
    session_id: Seq<char>,
    mtime: i64,
    size: i64,
    head: Seq<char>,
    tail: Seq<char>,
    project_path: Option<Seq<char>>,
)
    ensures
        ({
            let last = |s: Seq<char>, k: Seq<char>|
                last_field(s, k) is Some && last_field(s, k)->0.len() > 0;
            let first = |s: Seq<char>, k: Seq<char>|
                first_field(s, k) is Some && first_field(s, k)->0.len() > 0;
            let prompt = first_prompt_of(split_on(head, '\n'), Seq::empty());
            let start = split_on(head, '\n')[0];
            let aside = has_text(start, "\"isSidechain\":true"@) || has_text(
                start,
                "\"isSidechain\": true"@,
            );
            let titled = last(tail, "customTitle"@) || last(head, "customTitle"@) || last(
                tail,
                "aiTitle"@,
            ) || last(head, "aiTitle"@);
            let told = titled || last(tail, "lastPrompt"@) || last(tail, "summary"@)
                || prompt.len() > 0;
            let r = lite_info(session_id, mtime, size, head, tail, project_path);
            &&& r is Some <==> !aside && told
            &&& r matches Some(info) ==> {
                &&& info.session_id == session_id
                &&& info.last_modified == mtime
                &&& info.file_size == Some(size)
                &&& last(tail, "customTitle"@) ==> info.custom_title == last_field(
                    tail,
                    "customTitle"@,
                )
                &&& !last(tail, "customTitle"@) && last(head, "customTitle"@) ==> info.custom_title
                    == last_field(head, "customTitle"@)
                &&& !last(tail, "customTitle"@) && !last(head, "customTitle"@) && last(
                    tail,
                    "aiTitle"@,
                ) ==> info.custom_title == last_field(tail, "aiTitle"@)
                &&& !last(tail, "customTitle"@) && !last(head, "customTitle"@) && !last(
                    tail,
                    "aiTitle"@,
                ) && last(head, "aiTitle"@) ==> info.custom_title == last_field(head, "aiTitle"@)
                &&& titled ==> info.custom_title == Some(info.summary)
                &&& !titled ==> info.custom_title is None
                &&& !titled && last(tail, "lastPrompt"@) ==> Some(info.summary) == last_field(
                    tail,
                    "lastPrompt"@,
                )
                &&& !titled && !last(tail, "lastPrompt"@) && last(tail, "summary"@) ==> Some(
                    info.summary,
                ) == last_field(tail, "summary"@)
                &&& !titled && !last(tail, "lastPrompt"@) && !last(tail, "summary"@)
                    ==> info.summary == prompt
                &&& prompt.len() > 0 ==> info.first_prompt == Some(prompt)
                &&& prompt.len() == 0 ==> info.first_prompt is None
                &&& last(tail, "gitBranch"@) ==> info.git_branch == last_field(tail, "gitBranch"@)
                &&& !last(tail, "gitBranch"@) && first(head, "gitBranch"@) ==> info.git_branch
                    == first_field(head, "gitBranch"@)
                &&& !last(tail, "gitBranch"@) && !first(head, "gitBranch"@)
                    ==> info.git_branch is None
                &&& first(head, "cwd"@) ==> info.cwd == first_field(head, "cwd"@)
                &&& !first(head, "cwd"@) ==> info.cwd == project_path
                &&& match first_field(head, "timestamp"@) {
                    Some(time) => match iso_ms(time) {
                        Some(ms) => info.created_at == Some(ms as i64),
                        None => info.created_at is None,
                    },
                    None => info.created_at is None,
                }
            }
        }),
{
}

/// The last line that begins as an entry of type `tag` does.
proof fn lemma_last_tag_line(lines: Seq<Seq<char>>)
    ensures
        match last_tag_line(lines) {
            Some(line) => exists|i: int|
                0 <= i < lines.len() && #[trigger] lines[i] == line
                    && "{\"type\":\"tag\""@.is_prefix_of(line) && forall|j: int|
                    i < j < lines.len() ==> !"{\"type\":\"tag\""@.is_prefix_of(#[trigger] lines[j]),
            None => forall|j: int|
                0 <= j < lines.len() ==> !"{\"type\":\"tag\""@.is_prefix_of(#[trigger] lines[j]),
        },
    decreases lines.len(),
{
    let mark = "{\"type\":\"tag\""@;
    if lines.len() > 0 {
        let n = lines.len() - 1;
        if mark.is_prefix_of(lines.last()) {
            assert(lines[n] == lines.last());
        } else {
            let init = lines.drop_last();
            lemma_last_tag_line(init);
            assert(forall|j: int| 0 <= j < n ==> #[trigger] init[j] == lines[j]);
            if let Some(line) = last_tag_line(init) {
                let i = choose|i: int|
                    0 <= i < init.len() && #[trigger] init[i] == line && mark.is_prefix_of(line)
                        && forall|j: int|
                        i < j < init.len() ==> !mark.is_prefix_of(#[trigger] init[j]);
                assert(lines[i] == line);
                assert forall|j: int| i < j < lines.len() implies !mark.is_prefix_of(
                    #[trigger] lines[j],
                ) by {
                    if j < n {
                        assert(init[j] == lines[j]);
                    }
                }
            } else {
                assert forall|j: int| 0 <= j < lines.len() implies !mark.is_prefix_of(
                    #[trigger] lines[j],
                ) by {
                    if j < n {
                        assert(init[j] == lines[j]);
                    }
                }
            }
        }
    }
}

/// The tag of a session stands on the last line of the tail that begins as an
/// entry of type `tag` does: it is the last one on that line, and none where
/// that one is empty. Without such a line there is none.
pub proof fn law_tag_is_on_the_last_tag_line(
    session_id: Seq<char>,
    mtime: i64,
    size: i64,
    head: Seq<char>,
    tail: Seq<char>,
    project_path: Option<Seq<char>>,
    i: int,
)
    requires
        lite_info(session_id, mtime, size, head, tail, project_path) is Some,
        -1 <= i < split_on(tail, '\n').len(),
        i >= 0 ==> "{\"type\":\"tag\""@.is_prefix_of(split_on(tail, '\n')[i]),
        forall|j: int|
            i < j < split_on(tail, '\n').len() ==> !"{\"type\":\"tag\""@.is_prefix_of(
                #[trigger] split_on(tail, '\n')[j],
            ),
    ensures
        ({
            let info = lite_info(session_id, mtime, size, head, tail, project_path)->0;
            if i >= 0 {
                match last_field(split_on(tail, '\n')[i], "tag"@) {
                    Some(tag) => info.tag == if tag.len() > 0 {
                        Some(tag)
                    } else {
                        None
                    },
                    None => info.tag is None,
                }
            } else {
                info.tag is None
            }
        }),
{
    let lines = split_on(tail, '\n');
    let mark = "{\"type\":\"tag\""@;
    lemma_last_tag_line(lines);
    if let Some(line) = last_tag_line(lines) {
        let k = choose|k: int|
            0 <= k < lines.len() && #[trigger] lines[k] == line && mark.is_prefix_of(line)
                && forall|j: int| k < j < lines.len() ==> !mark.is_prefix_of(#[trigger] lines[j]);
        if k < i {
            assert(!mark.is_prefix_of(lines[i]));
        }
        if i < k {
            assert(!mark.is_prefix_of(lines[k]));
        }
        assert(k == i);
    } else if i >= 0 {
        assert(!mark.is_prefix_of(lines[i]));
    }
}

// ---------------------------------------------------------------------------
// Head and tail of bytes
// ---------------------------------------------------------------------------

/// The first [`LITE_READ_BUF_SIZE`] bytes, as text.
pub open spec fn head_text(bytes: Seq<u8>) -> Seq<char> {
    crate::unicode::lossy_text(
        if bytes.len() > LITE_READ_BUF_SIZE {
            bytes.take(LITE_READ_BUF_SIZE as int)
        } else {
            bytes
        },
    )
}

/// The last [`LITE_READ_BUF_SIZE`] bytes, as text.
pub open spec fn tail_text(bytes: Seq<u8>) -> Seq<char> {
    crate::unicode::lossy_text(
        if bytes.len() > LITE_READ_BUF_SIZE {
            bytes.skip(bytes.len() - LITE_READ_BUF_SIZE)
        } else {
            bytes
        },
    )
}

/// Head and tail of a transcript that is at hand as bytes.
pub fn lite_from_bytes(bytes: &[u8], mtime: i64) -> (r: LiteSessionFile)
    ensures
        r.mtime == mtime,
        r.size == (if bytes@.len() <= i64::MAX {
            bytes@.len() as i64
        } else {
            i64::MAX
        }),
        r.head@ == head_text(bytes@),
        r.tail@ == tail_text(bytes@),
{
    let n: usize = bytes.len();
    let size: i64 = if n as u64 <= 0x7fff_ffff_ffff_ffff {
        n as i64
    } else {
        i64::MAX
    };
    if n > LITE_READ_BUF_SIZE {
        let head = vstd::slice::slice_subrange(bytes, 0, LITE_READ_BUF_SIZE);
        let tail = vstd::slice::slice_subrange(bytes, n - LITE_READ_BUF_SIZE, n);
        proof {
            assert(head@ =~= bytes@.take(LITE_READ_BUF_SIZE as int));
            assert(tail@ =~= bytes@.skip(bytes@.len() - LITE_READ_BUF_SIZE));
        }
        LiteSessionFile {
            mtime,
            size,
            head: crate::unicode::decode_lossy(head),
            tail: crate::unicode::decode_lossy(tail),
        }
    } else {
        let head = crate::unicode::decode_lossy(bytes);
        let tail = head.clone();
        LiteSessionFile { mtime, size, head, tail }
    }
}

/// A UUID is five groups of 8, 4, 4, 4 and 12 hexadecimal digits, small or
/// capital, with hyphens between them, and no other text is one.
pub proof fn law_groups_of_a_uuid(
    a: Seq<char>,
    b: Seq<char>,
    c: Seq<char>,
    d: Seq<char>,
    e: Seq<char>,
    s: Seq<char>,
)
    requires
        a.len() == 8 && b.len() == 4 && c.len() == 4 && d.len() == 4 && e.len() == 12,
    ensures
        ({
            let hex = |x: char|
                48 <= x as u32 <= 57 || 65 <= x as u32 <= 70 || 97 <= x as u32 <= 102;
            let t = a + seq!['-'] + b + seq!['-'] + c + seq!['-'] + d + seq!['-'] + e;
            is_uuid(t) <==> forall|i: int|
                0 <= i < 32 ==> hex(#[trigger] (a + b + c + d + e)[i])
        }),
        s.len() != 36 ==> !is_uuid(s),
        s.len() == 36 && (s[8] != '-' || s[13] != '-' || s[18] != '-' || s[23] != '-') ==> !is_uuid(
            s,
        ),
{
    let t = a + seq!['-'] + b + seq!['-'] + c + seq!['-'] + d + seq!['-'] + e;
    let u = a + b + c + d + e;
    let place = |i: int|
        if i < 8 {
            i
        } else if i < 12 {
            i + 1
        } else if i < 16 {
            i + 2
        } else if i < 20 {
            i + 3
        } else {
            i + 4
        };
    assert forall|i: int| 0 <= i < 32 implies #[trigger] u[i] == t[place(i)] && !is_hyphen_place(
        place(i),
    ) by {}
    assert(t[8] == '-' && t[13] == '-' && t[18] == '-' && t[23] == '-');
    if is_uuid(t) {
        assert forall|i: int| 0 <= i < 32 implies is_hex(#[trigger] u[i]) by {
            let p = place(i);
            assert(t[p] == u[i]);
            assert(is_hex(t[p]));
        }
    }
    if forall|i: int| 0 <= i < 32 ==> is_hex(#[trigger] u[i]) {
        assert forall|p: int| 0 <= p < 36 implies if is_hyphen_place(p) {
            #[trigger] t[p] == '-'
        } else {
            is_hex(t[p])
        } by {
            if !is_hyphen_place(p) {
                let i = if p < 8 {
                    p
                } else if p < 13 {
                    p - 1
                } else if p < 18 {
                    p - 2
                } else if p < 23 {
                    p - 3
                } else {
                    p - 4
                };
                assert(u[i] == t[p]);
            }
        }
    }
    let hex = |x: char| 48 <= x as u32 <= 57 || 65 <= x as u32 <= 70 || 97 <= x as u32 <= 102;
    assert forall|x: char| #[trigger] is_hex(x) == hex(x) by {}
    if s.len() == 36 && is_uuid(s) {
        assert(is_hyphen_place(8) && is_hyphen_place(13) && is_hyphen_place(18)
            && is_hyphen_place(23));
        assert(s[8] == '-' && s[13] == '-' && s[18] == '-' && s[23] == '-');
    }
    if forall|i: int| 0 <= i < 32 ==> hex(#[trigger] u[i]) {
        assert forall|i: int| 0 <= i < 32 implies is_hex(#[trigger] u[i]) by {
            assert(hex(u[i]));
        }
    }
    if is_uuid(t) {
        assert forall|i: int| 0 <= i < 32 implies hex(#[trigger] u[i]) by {
            assert(is_hex(u[i]));
        }
    }
}

/// A string without quotes and backslashes ends at the quote behind it.
pub proof fn lemma_plain_string(s: Seq<char>, start: int, end: int)
    requires
        0 <= start <= end < s.len(),
        s[end] == '"',
        forall|i: int| start <= i < end ==> #[trigger] s[i] != '"' && s[i] != '\\',
    ensures
        string_end(s, start) == end,
    decreases end - start,
{
    if start < end {
        assert(s[start] != '"' && s[start] != '\\');
        lemma_plain_string(s, start + 1, end);
    }
}

/// A text without backslashes stands for itself, and one with any for what it
/// is as a JSON string, where it is one.
pub proof fn law_unescaped_texts(raw: Seq<char>)
    ensures
        !raw.contains('\\') ==> unescaped(raw) == raw,
        raw.contains('\\') ==> match parsed(seq!['"'] + raw + seq!['"']) {
            Some(Json::Str(s)) => unescaped(raw) == s,
            _ => unescaped(raw) == raw,
        },
{
}

/// The first field is the string behind the first mark of its key, with a
/// space behind the colon or without, whatever follows it.
pub proof fn law_first_field_counts(
    s: Seq<char>,
    key: Seq<char>,
    mark: Seq<char>,
    at: int,
    value: Seq<char>,
)
    requires
        !value.contains('"') && !value.contains('\\'),
        mark == "\""@ + key + "\":\""@ || mark == "\""@ + key + "\": \""@,
        0 <= at,
        crate::text::occurs_at(s, mark, at),
        crate::text::occurs_at(s, value.push('"'), at + mark.len()),
        forall|i: int|
            0 <= i < at ==> !(#[trigger] crate::text::occurs_at(
                s,
                "\""@ + key + "\":\""@,
                i,
            )) && !crate::text::occurs_at(s, "\""@ + key + "\": \""@, i),
    ensures
        first_field(s, key) == Some(value),
{
    let start = at + mark.len();
    let end = start + value.len();
    let closed = value.push('"');
    lemma_first_mark(s, key, mark == field_mark(key, true), at);
    assert(s.subrange(start, end + 1) == closed);
    assert(s[end] == s.subrange(start, end + 1)[value.len() as int]);
    assert forall|i: int| start <= i < end implies #[trigger] s[i] != '"' && s[i] != '\\' by {
        assert(s[i] == s.subrange(start, end + 1)[i - start]);
        assert(closed[i - start] == value[i - start]);
    }
    lemma_plain_string(s, start, end);
    assert(s.subrange(start, end) =~= value) by {
        assert forall|i: int| 0 <= i < value.len() implies s[start + i] == value[i] by {
            assert(s[start + i] == s.subrange(start, end + 1)[i]);
            assert(closed[i] == value[i]);
        }
    }
}

/// The two marks of a key do not stand at one place.
proof fn lemma_marks_differ(s: Seq<char>, key: Seq<char>, at: int)
    requires
        crate::text::occurs_at(s, field_mark(key, false), at),
    ensures
        !crate::text::occurs_at(s, field_mark(key, true), at),
{
    let plain = field_mark(key, false);
    let wide = field_mark(key, true);
    reveal_strlit("\"");
    reveal_strlit("\":\"");
    reveal_strlit("\": \"");
    let turn = key.len() as int + 3;
    assert(plain[turn] == '"');
    assert(wide[turn] == ' ');
    if crate::text::occurs_at(s, wide, at) {
        assert(s.subrange(at, at + plain.len())[turn] == s[at + turn]);
        assert(s.subrange(at, at + wide.len())[turn] == s[at + turn]);
    }
}

/// The first value begins behind the first mark.
proof fn lemma_first_mark(s: Seq<char>, key: Seq<char>, spaced: bool, at: int)
    requires
        0 <= at,
        crate::text::occurs_at(s, field_mark(key, spaced), at),
        forall|i: int|
            0 <= i < at ==> !(#[trigger] crate::text::occurs_at(s, field_mark(key, false), i))
                && !crate::text::occurs_at(s, field_mark(key, true), i),
    ensures
        next_value(s, key, 0) == Some(at + field_mark(key, spaced).len()),
{
    let plain = field_mark(key, false);
    let wide = field_mark(key, true);
    crate::text::lemma_find_from(s, plain, 0);
    crate::text::lemma_find_from(s, wide, 0);
    if let Some(i) = find_from(s, plain, 0) {
        assert(i >= at);
        if i == at {
            lemma_marks_differ(s, key, at);
        }
    }
    if let Some(j) = find_from(s, wide, 0) {
        assert(j >= at) by {
            if j < at {
                assert(!crate::text::occurs_at(s, plain, j));
            }
        }
    }
}

/// Where a text has no mark of a key, it has no field of it.
pub proof fn law_no_mark_no_field(s: Seq<char>, key: Seq<char>)
    requires
        !has_text(s, "\""@ + key + "\":\""@),
        !has_text(s, "\""@ + key + "\": \""@),
    ensures
        first_field(s, key) is None,
        last_field(s, key) is None,
{
    let plain = "\""@ + key + "\":\""@;
    let wide = "\""@ + key + "\": \""@;
    crate::text::lemma_find_from(s, plain, 0);
    crate::text::lemma_find_from(s, wide, 0);
}

} // verus!
