//! Session mutations: what is appended to rename or tag a session, and what a
//! forked session holds.
use serde_json::{Map as JsonMap, Value};
use vstd::prelude::*;

use crate::error::ClaudeError;
use crate::json::{
    distinct_keys, is_plain, json, lookup, members, object_value, printed, reads_back, string_value,
    Json, Members,
};
use crate::sessions::lite::{is_uuid, validate_uuid};
use crate::sessions::store::SessionStoreEntry;
use crate::text::{
    concat, concat3, nonempty_view, push_text, same, str_view, to_chars, trim, trimmed,
};
use crate::time::is_clock_text;
use crate::unicode::{nfkc, nfkc_text};

verus! {

broadcast use vstd::string::group_string_axioms;

/// Result of a fork operation.
#[derive(Debug, Clone, PartialEq, Eq)]
pub struct ForkSessionResult {
    /// ID of the new forked session (a freshly generated canonical UUID).
    pub session_id: String,
}

// ---------------------------------------------------------------------------
// Unicode sanitization
// ---------------------------------------------------------------------------

/// Whether `c` is a format, private-use or other character that can hide in a
/// text or change how it is shown.
pub open spec fn is_dangerous(c: char) -> bool {
    let n = c as u32;
    ||| n == 0x00ad
    ||| 0x0600 <= n <= 0x0605
    ||| n == 0x061c
    ||| n == 0x06dd
    ||| n == 0x070f
    ||| n == 0x08e2
    ||| n == 0x180e
    ||| 0x200b <= n <= 0x200f
    ||| 0x202a <= n <= 0x202e
    ||| 0x2060 <= n <= 0x2064
    ||| 0x2066 <= n <= 0x206f
    ||| 0xe000 <= n <= 0xf8ff
    ||| n == 0xfeff
    ||| 0xfff9 <= n <= 0xfffb
    ||| 0xe0000 <= n <= 0xe007f
    ||| 0xf0000 <= n <= 0xffffd
    ||| 0x100000 <= n <= 0x10fffd
}

/// `s` without its dangerous characters.
pub open spec fn stripped(s: Seq<char>) -> Seq<char> {
    s.filter(|c: char| !is_dangerous(c))
}

/// One round of sanitization: normal form KC, then no dangerous characters.
pub open spec fn sanitized_once(s: Seq<char>) -> Seq<char> {
    stripped(nfkc_text(s))
}

/// Rounds of sanitization until nothing changes, at most `rounds`.
pub open spec fn sanitized_rounds(s: Seq<char>, rounds: nat) -> Seq<char>
    decreases rounds,
{
    if rounds == 0 || sanitized_once(s) == s {
        s
    } else {
        sanitized_rounds(sanitized_once(s), (rounds - 1) as nat)
    }
}

/// The number of rounds of sanitization.
pub const SANITIZE_ROUNDS: usize = 10;

/// Whether `c` should be stripped by [`sanitize_unicode`].
pub fn is_dangerous_char(c: char) -> (r: bool)
    ensures
        r == is_dangerous(c),
{
    let n: u32 = c as u32;
    n == 0x00ad || (0x0600 <= n && n <= 0x0605) || n == 0x061c || n == 0x06dd || n == 0x070f || n
        == 0x08e2 || n == 0x180e || (0x200b <= n && n <= 0x200f) || (0x202a <= n && n <= 0x202e)
        || (0x2060 <= n && n <= 0x2064) || (0x2066 <= n && n <= 0x206f) || (0xe000 <= n && n
        <= 0xf8ff) || n == 0xfeff || (0xfff9 <= n && n <= 0xfffb) || (0xe0000 <= n && n <= 0xe007f)
        || (0xf0000 <= n && n <= 0xffffd) || (0x100000 <= n && n <= 0x10fffd)
}

/// `s` without its dangerous characters.
pub fn strip_dangerous(s: &str) -> (r: String)
    ensures
        r@ == stripped(s@),
{
    let cs = to_chars(s);
    let ghost keep = |c: char| !is_dangerous(c);
    let mut r = String::new();
    let mut i: usize = 0;
    proof {
        reveal(Seq::filter);
        assert(s@.take(0) =~= Seq::<char>::empty());
        assert(r@ =~= s@.take(0).filter(keep));
    }
    while i < cs.len()
        invariant
            cs@ == s@,
            keep == (|c: char| !is_dangerous(c)),
            i <= s@.len(),
            r@ == s@.take(i as int).filter(keep),
        decreases s@.len() - i,
    {
        proof {
            reveal(Seq::filter);
            assert(s@.take(i as int + 1).drop_last() =~= s@.take(i as int));
        }
        if !is_dangerous_char(cs[i]) {
            r.push(cs[i]);
        }
        i = i + 1;
    }
    proof {
        assert(s@.take(s@.len() as int) =~= s@);
    }
    r
}

/// Sanitizes a text by removing dangerous Unicode characters.
///
/// Applies normal form KC and strips the characters until nothing changes, at
/// most [`SANITIZE_ROUNDS`] times.
pub fn sanitize_unicode(value: &str) -> (r: String)
    ensures
        r@ == sanitized_rounds(value@, SANITIZE_ROUNDS as nat),
{
    let mut current = value.to_owned();
    let mut left: usize = SANITIZE_ROUNDS;
    while left > 0
        invariant
            left <= SANITIZE_ROUNDS,
            sanitized_rounds(value@, SANITIZE_ROUNDS as nat) == sanitized_rounds(
                current@,
                left as nat,
            ),
        decreases left,
    {
        let next = strip_dangerous(&nfkc(&current));
        if same(&next, &current) {
            return current;
        }
        current = next;
        left = left - 1;
    }
    current
}

/// A filtered text has no filtered characters.
proof fn lemma_stripped(s: Seq<char>)
    ensures
        forall|i: int| 0 <= i < stripped(s).len() ==> !is_dangerous(#[trigger] stripped(s)[i]),
    decreases s.len(),
{
    reveal(Seq::filter);
    if s.len() > 0 {
        lemma_stripped(s.drop_last());
    }
}

/// A sanitized text holds no dangerous character.
pub proof fn law_sanitized_is_harmless(s: Seq<char>, rounds: nat)
    requires
        rounds > 0,
    ensures
        forall|i: int|
            0 <= i < sanitized_rounds(s, rounds).len() ==> !is_dangerous(
                #[trigger] sanitized_rounds(s, rounds)[i],
            ),
    decreases rounds,
{
    lemma_stripped(nfkc_text(s));
    let once = stripped(nfkc_text(s));
    let all = sanitized_rounds(s, rounds);
    if once == s {
        assert(all == once);
    } else if rounds == 1 {
        assert(sanitized_rounds(once, 0) == once);
        assert(all == once);
    } else {
        law_sanitized_is_harmless(once, (rounds - 1) as nat);
        assert(all == sanitized_rounds(once, (rounds - 1) as nat));
    }
}

// ---------------------------------------------------------------------------
// Small helpers
// ---------------------------------------------------------------------------

/// Whether `s` is a canonical UUID of version 4 in small letters.
pub open spec fn is_random_uuid(s: Seq<char>) -> bool {
    is_uuid(s) && s[14] == '4' && forall|i: int|
        0 <= i < s.len() ==> !(65 <= (#[trigger] s[i]) as u32 <= 70)
}

/// `Uuid::new_v4` as text: a canonical UUID of version 4 in small letters.
/// Which one is up to chance.
#[verifier::external_body]
pub(crate) fn new_uuid() -> (r: String)
    ensures
        is_random_uuid(r@),
{
    uuid::Uuid::new_v4().to_string()
}

/// The given session identifier, where it is a canonical UUID.
pub fn require_uuid(session_id: &str) -> (r: Result<String, ClaudeError>)
    ensures
        match r {
            Ok(s) => is_uuid(session_id@) && s@ == session_id@,
            Err(e) => !is_uuid(session_id@) && e.is_invalid_config(
                "Invalid session_id: "@ + session_id@,
            ),
        },
{
    match validate_uuid(session_id) {
        Some(s) => Ok(s.to_owned()),
        None => Err(ClaudeError::InvalidConfig(concat("Invalid session_id: ", session_id))),
    }
}

/// The text of the error for a session without messages to fork.
pub open spec fn no_messages_text(session_id: Seq<char>) -> Seq<char> {
    "Session "@ + session_id + " has no messages to fork"@
}

/// The error for a session without messages to fork.
pub fn no_messages_err(session_id: &str) -> (r: ClaudeError)
    ensures
        r.is_invalid_config(no_messages_text(session_id@)),
{
    ClaudeError::InvalidConfig(concat3("Session ", session_id, " has no messages to fork"))
}

/// The text of the error for a session that is not there.
pub open spec fn not_found_text(session_id: Seq<char>, directory: Option<Seq<char>>) -> Seq<char> {
    match nonempty_view(directory) {
        Some(dir) => "Session "@ + session_id + " not found in project directory for "@ + dir,
        None => "Session "@ + session_id + " not found"@,
    }
}

/// The text of the error for a session that is not there.
pub fn not_found_message(session_id: &str, directory: Option<&str>) -> (r: String)
    ensures
        r@ == not_found_text(session_id@, str_view(directory)),
{
    match directory {
        Some(dir) => {
            let cs = to_chars(dir);
            if cs.len() > 0 {
                let mut s = concat3("Session ", session_id, " not found in project directory for ");
                push_text(&mut s, dir);
                return s;
            }
        },
        None => {},
    }
    concat3("Session ", session_id, " not found")
}

/// The text of the error for a session that cannot be appended to. Without a
/// directory it tells whether there was any project to look in.
pub open spec fn append_fault_text(
    session_id: Seq<char>,
    directory: Option<Seq<char>>,
    has_projects: bool,
) -> Seq<char> {
    if nonempty_view(directory) is Some {
        not_found_text(session_id, directory)
    } else if has_projects {
        "Session "@ + session_id + " not found in any project directory"@
    } else {
        "Session "@ + session_id + " not found (no projects directory)"@
    }
}

/// The error for a session that has no transcript file to append to.
pub fn append_fault(session_id: &str, directory: Option<&str>, has_projects: bool) -> (r:
    ClaudeError)
    ensures
        r.is_transport_error(append_fault_text(session_id@, str_view(directory), has_projects)),
{
    match directory {
        Some(dir) => {
            let cs = to_chars(dir);
            if cs.len() > 0 {
                return ClaudeError::TransportError(not_found_message(session_id, directory));
            }
        },
        None => {},
    }
    ClaudeError::TransportError(
        if has_projects {
            concat3("Session ", session_id, " not found in any project directory")
        } else {
            concat3("Session ", session_id, " not found (no projects directory)")
        },
    )
}

/// The JSON text of a value on a line of its own.
pub open spec fn line_of(j: Json) -> Seq<char> {
    printed(j).push('\n')
}

/// Compact single-line JSON with a trailing newline.
pub fn compact_line(value: &Value) -> (r: String)
    ensures
        r@ == line_of(json(*value)),
        forall|i: int| 0 <= i < r@.len() - 1 ==> (#[trigger] r@[i]) != '\n',
        is_plain(json(*value), 100) ==> reads_back(printed(json(*value)), json(*value)),
{
    let mut s = crate::json::print(value);
    let ghost was = s@;
    s.push('\n');
    proof {
        assert forall|i: int| 0 <= i < s@.len() - 1 implies (#[trigger] s@[i]) != '\n' by {
            assert(was[i] == s@[i]);
            if was[i] == '\n' {
                assert(was.contains('\n'));
            }
        }
    }
    s
}

// ---------------------------------------------------------------------------
// Renaming and tagging
// ---------------------------------------------------------------------------

/// The members of the entry that gives a session a title.
pub open spec fn title_members(title: Seq<char>, session_id: Seq<char>) -> Members {
    seq![
        ("type"@, Json::Str("custom-title"@)),
        ("customTitle"@, Json::Str(title)),
        ("sessionId"@, Json::Str(session_id)),
    ]
}

/// The members of the entry that gives a session a tag.
pub open spec fn tag_members(tag: Seq<char>, session_id: Seq<char>) -> Members {
    seq![
        ("type"@, Json::Str("tag"@)),
        ("tag"@, Json::Str(tag)),
        ("sessionId"@, Json::Str(session_id)),
    ]
}

/// What is stamped on an entry that goes to a store: a `uuid` and the time.
pub open spec fn stamped(m: Members, uuid: Seq<char>, timestamp: Seq<char>) -> Members {
    m + seq![("uuid"@, Json::Str(uuid)), ("timestamp"@, Json::Str(timestamp))]
}

/// An object with three texts under different keys.
fn three_texts(k1: &str, v1: &str, k2: &str, v2: &str, k3: &str, v3: &str) -> (r: JsonMap<
    String,
    Value,
>)
    requires
        k1@ != k2@,
        k1@ != k3@,
        k2@ != k3@,
    ensures
        members(r) == seq![
            (k1@, Json::Str(v1@)),
            (k2@, Json::Str(v2@)),
            (k3@, Json::Str(v3@)),
        ],
{
    let mut m = JsonMap::new();
    let _ = m.insert(k1.to_owned(), string_value(v1.to_owned()));
    proof {
        assert(members(m) =~= seq![(k1@, Json::Str(v1@))]);
        crate::json::lemma_key_index(members(m), k2@);
    }
    let _ = m.insert(k2.to_owned(), string_value(v2.to_owned()));
    proof {
        assert(members(m) =~= seq![(k1@, Json::Str(v1@)), (k2@, Json::Str(v2@))]);
        crate::json::lemma_key_index(members(m), k3@);
    }
    let _ = m.insert(k3.to_owned(), string_value(v3.to_owned()));
    proof {
        assert(members(m) =~= seq![
            (k1@, Json::Str(v1@)),
            (k2@, Json::Str(v2@)),
            (k3@, Json::Str(v3@)),
        ]);
    }
    m
}

/// The keys of the entries that this module writes are different texts.
proof fn lemma_entry_keys()
    ensures
        "type"@ != "customTitle"@,
        "type"@ != "tag"@,
        "type"@ != "sessionId"@,
        "type"@ != "uuid"@,
        "type"@ != "timestamp"@,
        "type"@ != "replacements"@,
        "customTitle"@ != "sessionId"@,
        "customTitle"@ != "uuid"@,
        "customTitle"@ != "timestamp"@,
        "tag"@ != "sessionId"@,
        "tag"@ != "uuid"@,
        "tag"@ != "timestamp"@,
        "sessionId"@ != "uuid"@,
        "sessionId"@ != "timestamp"@,
        "sessionId"@ != "replacements"@,
        "sessionId"@ != "messageUuid"@,
        "replacements"@ != "uuid"@,
        "replacements"@ != "timestamp"@,
        "uuid"@ != "timestamp"@,
{
    reveal_strlit("type");
    reveal_strlit("customTitle");
    reveal_strlit("tag");
    reveal_strlit("sessionId");
    reveal_strlit("uuid");
    reveal_strlit("timestamp");
    reveal_strlit("replacements");
    reveal_strlit("messageUuid");
    assert("type"@.len() == 4);
    assert("tag"@.len() == 3);
    assert("timestamp"@.len() == 9);
    assert("type"@[0] == 't');
    assert("uuid"@[0] == 'u');
    assert("sessionId"@[0] == 's');
    assert("timestamp"@[0] == 't');
    assert("customTitle"@[0] == 'c');
}

/// Puts one more text behind all members, under a new key.
fn push_member(m: &mut JsonMap<String, Value>, k: &str, v: Value)
    requires
        forall|i: int|
            0 <= i < members(*old(m)).len() ==> (#[trigger] members(*old(m))[i]).0 != k@,
    ensures
        members(*final(m)) == members(*old(m)).push((k@, json(v))),
{
    proof {
        crate::json::lemma_key_index(members(*m), k@);
    }
    let _ = m.insert(k.to_owned(), v);
}

/// The entry that gives a session a title. The title must not be blank.
pub fn title_entry(session_id: &str, title: &str) -> (r: Result<SessionStoreEntry, ClaudeError>)
    ensures
        match r {
            Ok(m) => is_uuid(session_id@) && trimmed(title@).len() > 0 && members(m)
                == title_members(trimmed(title@), session_id@),
            Err(e) => if is_uuid(session_id@) {
                trimmed(title@).len() == 0 && e.is_invalid_config("title must be non-empty"@)
            } else {
                e.is_invalid_config("Invalid session_id: "@ + session_id@)
            },
        },
{
    match require_uuid(session_id) {
        Ok(_) => {},
        Err(e) => return Err(e),
    }
    let bare = trim(title);
    let cs = to_chars(&bare);
    if cs.len() == 0 {
        return Err(ClaudeError::InvalidConfig("title must be non-empty".to_owned()));
    }
    proof {
        lemma_entry_keys();
    }
    Ok(three_texts("type", "custom-title", "customTitle", &bare, "sessionId", session_id))
}

/// The tag that is stored for a requested one: sanitized and without white
/// space at its ends, or empty to clear it.
pub open spec fn stored_tag(tag: Option<Seq<char>>) -> Seq<char> {
    match tag {
        Some(t) => trimmed(sanitized_rounds(t, SANITIZE_ROUNDS as nat)),
        None => ""@,
    }
}

/// The entry that gives a session a tag, where `sanitized` is the sanitized
/// tag, or that clears its tag. A tag must not be blank.
pub fn tag_entry_from(session_id: &str, sanitized: Option<&str>) -> (r: Result<
    SessionStoreEntry,
    ClaudeError,
>)
    ensures
        ({
            let tag = match sanitized {
                Some(t) => trimmed(t@),
                None => ""@,
            };
            match r {
                Ok(m) => is_uuid(session_id@) && (sanitized is Some ==> tag.len() > 0) && members(m)
                    == tag_members(tag, session_id@),
                Err(e) => if is_uuid(session_id@) {
                    sanitized is Some && tag.len() == 0 && e.is_invalid_config(
                        "tag must be non-empty (use None to clear)"@,
                    )
                } else {
                    e.is_invalid_config("Invalid session_id: "@ + session_id@)
                },
            }
        }),
{
    match require_uuid(session_id) {
        Ok(_) => {},
        Err(e) => return Err(e),
    }
    proof {
        lemma_entry_keys();
    }
    match sanitized {
        Some(t) => {
            let bare = trim(t);
            let cs = to_chars(&bare);
            if cs.len() == 0 {
                return Err(
                    ClaudeError::InvalidConfig(
                        "tag must be non-empty (use None to clear)".to_owned(),
                    ),
                );
            }
            Ok(three_texts("type", "tag", "tag", &bare, "sessionId", session_id))
        },
        None => Ok(three_texts("type", "tag", "tag", "", "sessionId", session_id)),
    }
}

/// The entry that gives a session a tag, or clears it with `None`. Tags are
/// sanitized first.
pub fn tag_entry(session_id: &str, tag: Option<&str>) -> (r: Result<
    SessionStoreEntry,
    ClaudeError,
>)
    ensures
        match r {
            Ok(m) => is_uuid(session_id@) && (tag is Some ==> stored_tag(str_view(tag)).len() > 0)
                && members(m) == tag_members(stored_tag(str_view(tag)), session_id@),
            Err(e) => if is_uuid(session_id@) {
                tag is Some && stored_tag(str_view(tag)).len() == 0 && e.is_invalid_config(
                    "tag must be non-empty (use None to clear)"@,
                )
            } else {
                e.is_invalid_config("Invalid session_id: "@ + session_id@)
            },
        },
{
    match tag {
        Some(t) => {
            let clean = sanitize_unicode(t);
            tag_entry_from(session_id, Some(&clean))
        },
        None => tag_entry_from(session_id, None),
    }
}

/// A line with an entry, which is read back as the entry.
pub open spec fn is_entry_line(line: Seq<char>, m: Members) -> bool {
    line == line_of(Json::Object(m)) && reads_back(printed(Json::Object(m)), Json::Object(m))
}

/// The line that renames a session when it is appended to its transcript.
pub fn rename_line(session_id: &str, title: &str) -> (r: Result<String, ClaudeError>)
    ensures
        match r {
            Ok(s) => is_uuid(session_id@) && trimmed(title@).len() > 0 && is_entry_line(
                s@,
                title_members(trimmed(title@), session_id@),
            ),
            Err(e) => if is_uuid(session_id@) {
                trimmed(title@).len() == 0 && e.is_invalid_config("title must be non-empty"@)
            } else {
                e.is_invalid_config("Invalid session_id: "@ + session_id@)
            },
        },
{
    match title_entry(session_id, title) {
        Ok(m) => {
            proof {
                reveal_with_fuel(is_plain, 2);
                assert(is_plain(Json::Object(members(m)), 100));
            }
            Ok(compact_line(&object_value(m)))
        },
        Err(e) => Err(e),
    }
}

/// The line that tags a session when it is appended to its transcript.
pub fn tag_line(session_id: &str, tag: Option<&str>) -> (r: Result<String, ClaudeError>)
    ensures
        match r {
            Ok(s) => is_uuid(session_id@) && (tag is Some ==> stored_tag(str_view(tag)).len() > 0)
                && is_entry_line(s@, tag_members(stored_tag(str_view(tag)), session_id@)),
            Err(e) => if is_uuid(session_id@) {
                tag is Some && stored_tag(str_view(tag)).len() == 0 && e.is_invalid_config(
                    "tag must be non-empty (use None to clear)"@,
                )
            } else {
                e.is_invalid_config("Invalid session_id: "@ + session_id@)
            },
        },
{
    match tag_entry(session_id, tag) {
        Ok(m) => {
            proof {
                reveal_with_fuel(is_plain, 2);
                assert(is_plain(Json::Object(members(m)), 100));
            }
            Ok(compact_line(&object_value(m)))
        },
        Err(e) => Err(e),
    }
}

/// An entry with a `uuid` and a time, as it goes to a store.
fn stamp(entry: SessionStoreEntry, uuid: &str, timestamp: &str) -> (r: SessionStoreEntry)
    requires
        forall|i: int|
            0 <= i < members(entry).len() ==> (#[trigger] members(entry)[i]).0 != "uuid"@
                && members(entry)[i].0 != "timestamp"@,
    ensures
        members(r) == stamped(members(entry), uuid@, timestamp@),
{
    let mut m = entry;
    proof {
        lemma_entry_keys();
    }
    push_member(&mut m, "uuid", string_value(uuid.to_owned()));
    push_member(&mut m, "timestamp", string_value(timestamp.to_owned()));
    proof {
        assert(members(m) =~= stamped(members(entry), uuid@, timestamp@));
    }
    m
}

/// The entry that renames a session in a store, with a fresh `uuid` and the
/// current time.
pub fn rename_store_entry(session_id: &str, title: &str) -> (r: Result<
    SessionStoreEntry,
    ClaudeError,
>)
    ensures
        match r {
            Ok(m) => is_uuid(session_id@) && trimmed(title@).len() > 0 && exists|
                uuid: Seq<char>,
                now: Seq<char>,
            |
                is_random_uuid(uuid) && is_clock_text(now) && members(m) == #[trigger] stamped(
                    title_members(trimmed(title@), session_id@),
                    uuid,
                    now,
                ),
            Err(e) => if is_uuid(session_id@) {
                trimmed(title@).len() == 0 && e.is_invalid_config("title must be non-empty"@)
            } else {
                e.is_invalid_config("Invalid session_id: "@ + session_id@)
            },
        },
{
    match title_entry(session_id, title) {
        Ok(m) => {
            proof {
                lemma_entry_keys();
            }
            Ok(stamp(m, &new_uuid(), &crate::time::iso_now()))
        },
        Err(e) => Err(e),
    }
}

/// The entry that tags a session in a store, with a fresh `uuid` and the
/// current time.
pub fn tag_store_entry(session_id: &str, tag: Option<&str>) -> (r: Result<
    SessionStoreEntry,
    ClaudeError,
>)
    ensures
        match r {
            Ok(m) => is_uuid(session_id@) && (tag is Some ==> stored_tag(str_view(tag)).len() > 0)
                && exists|uuid: Seq<char>, now: Seq<char>|
                is_random_uuid(uuid) && is_clock_text(now) && members(m) == #[trigger] stamped(
                    tag_members(stored_tag(str_view(tag)), session_id@),
                    uuid,
                    now,
                ),
            Err(e) => if is_uuid(session_id@) {
                tag is Some && stored_tag(str_view(tag)).len() == 0 && e.is_invalid_config(
                    "tag must be non-empty (use None to clear)"@,
                )
            } else {
                e.is_invalid_config("Invalid session_id: "@ + session_id@)
            },
        },
{
    match tag_entry(session_id, tag) {
        Ok(m) => {
            proof {
                lemma_entry_keys();
            }
            Ok(stamp(m, &new_uuid(), &crate::time::iso_now()))
        },
        Err(e) => Err(e),
    }
}

/// Sanitizing takes dangerous characters out and keeps all others, in order. A
/// text in its normal form without any is kept as it is.
pub proof fn law_sanitizing_keeps_harmless_texts(s: Seq<char>, t: Seq<char>, rounds: nat)
    ensures
        stripped(s + t) == stripped(s) + stripped(t),
        (forall|i: int| 0 <= i < s.len() ==> !is_dangerous(#[trigger] s[i])) ==> stripped(s) == s,
        (forall|i: int| 0 <= i < s.len() ==> is_dangerous(#[trigger] s[i])) ==> stripped(s).len()
            == 0,
        (forall|i: int| 0 <= i < s.len() ==> !is_dangerous(#[trigger] s[i])) && nfkc_text(s) == s
            ==> sanitized_rounds(s, rounds) == s,
    decreases s.len(),
{
    let keep = |c: char| !is_dangerous(c);
    Seq::filter_distributes_over_add(s, t, keep);
    reveal(Seq::filter);
    if s.len() > 0 {
        let init = s.drop_last();
        law_sanitizing_keeps_harmless_texts(init, t, rounds);
        assert(forall|i: int| 0 <= i < init.len() ==> #[trigger] init[i] == s[i]);
        assert(s.last() == s[s.len() - 1]);
        assert(init.push(s.last()) =~= s);
    } else {
        assert(stripped(s) =~= s);
    }
}

/// What is dangerous: soft hyphens, spaces without width, marks and controls
/// of direction, invisible operators, byte order marks, annotations, tags and
/// characters for private use. Printable ASCII, white space, Latin, Greek,
/// Cyrillic, Hebrew and CJK letters and pictographs are not.
pub proof fn law_dangerous_characters(c: char)
    ensures
        ({
            let n = c as u32;
            &&& n == 0xad || 0x200b <= n <= 0x200f || 0x202a <= n <= 0x202e || 0x2060 <= n <= 0x2064
                || 0x2066 <= n <= 0x206f || n == 0xfeff || 0xfff9 <= n <= 0xfffb || 0xe000 <= n
                <= 0xf8ff || 0xe0000 <= n <= 0xe007f || 0xf0000 <= n <= 0xffffd || 0x100000 <= n
                <= 0x10fffd || 0x600 <= n <= 0x605 || n == 0x61c || n == 0x6dd || n == 0x70f || n
                == 0x8e2 || n == 0x180e ==> is_dangerous(c)
            &&& n < 0xad || 0xae <= n < 0x600 || 0x606 <= n < 0x61c || 0x61d <= n < 0x6dd || 0x6de
                <= n < 0x70f || 0x710 <= n < 0x8e2 || 0x8e3 <= n < 0x180e || 0x180f <= n < 0x200b
                || 0x2010 <= n < 0x202a || 0x202f <= n < 0x2060 || n == 0x2065 || 0x2070 <= n
                < 0xe000 || 0xf900 <= n < 0xfeff || 0xff00 <= n < 0xfff9 || 0xfffc <= n < 0xe0000
                || 0xe0080 <= n < 0xf0000 ==> !is_dangerous(c)
        }),
{
}

/// A stored title gives the session its title, and a stored tag its tag,
/// whatever the summary of the session held before. An empty tag clears it.
/// Neither changes the other, and both keep who they are for.
pub proof fn law_stored_titles_and_tags_are_summed_up(
    data: Members,
    text: Seq<char>,
    session_id: Seq<char>,
    uuid: Seq<char>,
    now: Seq<char>,
)
    requires
        distinct_keys(data),
    ensures
        ({
            let renamed = crate::sessions::summary::fold_entry(
                data,
                stamped(title_members(text, session_id), uuid, now),
            );
            let tagged = crate::sessions::summary::fold_entry(
                data,
                stamped(tag_members(text, session_id), uuid, now),
            );
            &&& lookup(renamed, "custom_title"@) == Some(Json::Str(text))
            &&& lookup(renamed, "tag"@) == lookup(data, "tag"@)
            &&& lookup(tagged, "tag"@) == if text.len() > 0 {
                Some(Json::Str(text))
            } else {
                None
            }
            &&& lookup(tagged, "custom_title"@) == lookup(data, "custom_title"@)
        }),
        ({
            let a = stamped(title_members(text, session_id), uuid, now);
            let b = stamped(tag_members(text, session_id), uuid, now);
            &&& lookup(a, "sessionId"@) == Some(Json::Str(session_id))
            &&& lookup(b, "sessionId"@) == Some(Json::Str(session_id))
            &&& lookup(a, "uuid"@) == Some(Json::Str(uuid))
            &&& lookup(b, "uuid"@) == Some(Json::Str(uuid))
            &&& lookup(a, "timestamp"@) == Some(Json::Str(now))
            &&& lookup(b, "timestamp"@) == Some(Json::Str(now))
        }),
{
    let a = stamped(title_members(text, session_id), uuid, now);
    let b = stamped(tag_members(text, session_id), uuid, now);
    crate::sessions::summary::law_last_entry_counts(data, a);
    crate::sessions::summary::law_last_entry_counts(data, b);
    reveal_strlit("type");
    reveal_strlit("customTitle");
    reveal_strlit("tag");
    reveal_strlit("custom-title");
    reveal_strlit("sessionId");
    reveal_strlit("uuid");
    reveal_strlit("timestamp");
    assert("type"@.len() == 4 && "customTitle"@.len() == 11 && "tag"@.len() == 3
        && "custom-title"@.len() == 12 && "sessionId"@.len() == 9 && "uuid"@.len() == 4
        && "timestamp"@.len() == 9);
    assert("type"@[0] == 't' && "uuid"@[0] == 'u' && "sessionId"@[0] == 's' && "timestamp"@[0]
        == 't');
    lemma_found(a, 0);
    lemma_found(a, 1);
    lemma_found(a, 2);
    lemma_found(a, 3);
    lemma_found(a, 4);
    lemma_found(b, 0);
    lemma_found(b, 1);
    lemma_found(b, 2);
    lemma_found(b, 3);
    lemma_found(b, 4);
    crate::json::lemma_key_index(b, "customTitle"@);
    assert(lookup(b, "customTitle"@) is None);
}

/// A member is found by its key where no member before it has the key.
proof fn lemma_found(m: Members, i: int)
    requires
        0 <= i < m.len(),
        forall|j: int| 0 <= j < i ==> (#[trigger] m[j]).0 != m[i].0,
    ensures
        lookup(m, m[i].0) == Some(m[i].1),
{
    let k = m[i].0;
    crate::json::lemma_key_index(m, k);
    let at = crate::json::key_index(m, k);
    if at > i {
        assert(m[i].0 != k);
    }
    if at < i {
        assert(m[at].0 != m[i].0);
    }
}

/// A tag is stored in its harmless form, without white space at its ends, and
/// a cleared tag as the empty text.
pub proof fn law_stored_tags(tag: Seq<char>)
    ensures
        stored_tag(None).len() == 0,
        stored_tag(Some(tag)) == trimmed(sanitized_rounds(tag, 10)),
        (forall|i: int| 0 <= i < tag.len() ==> !is_dangerous(#[trigger] tag[i])) && nfkc_text(tag)
            == tag ==> stored_tag(Some(tag)) == trimmed(tag),
{
    reveal_strlit("");
    law_sanitizing_keeps_harmless_texts(tag, tag, 10);
}

/// What a request for a session that is not there is answered: the session,
/// and the directory where one was named.
pub proof fn law_answers_for_missing_sessions(session_id: Seq<char>, dir: Seq<char>)
    requires
        dir.len() > 0,
    ensures
        not_found_text(session_id, Some(dir)) == "Session "@ + session_id
            + " not found in project directory for "@ + dir,
        not_found_text(session_id, None) == "Session "@ + session_id + " not found"@,
        not_found_text(session_id, Some(Seq::empty())) == not_found_text(session_id, None),
        append_fault_text(session_id, Some(dir), true) == not_found_text(session_id, Some(dir)),
        append_fault_text(session_id, Some(dir), false) == not_found_text(session_id, Some(dir)),
        append_fault_text(session_id, None, true) == "Session "@ + session_id
            + " not found in any project directory"@,
        append_fault_text(session_id, None, false) == "Session "@ + session_id
            + " not found (no projects directory)"@,
        no_messages_text(session_id) == "Session "@ + session_id + " has no messages to fork"@,
{
}

/// What is appended to rename a session says that it is a title, which title,
/// and of which session; what is appended to tag one says that it is a tag,
/// which tag, and of which session. Neither says anything else.
pub proof fn law_entries_of_titles_and_tags(text: Seq<char>, session_id: Seq<char>)
    ensures
        ({
            let a = title_members(text, session_id);
            let b = tag_members(text, session_id);
            &&& a.len() == 3 && b.len() == 3
            &&& lookup(a, "type"@) == Some(Json::Str("custom-title"@))
            &&& lookup(a, "customTitle"@) == Some(Json::Str(text))
            &&& lookup(a, "sessionId"@) == Some(Json::Str(session_id))
            &&& lookup(b, "type"@) == Some(Json::Str("tag"@))
            &&& lookup(b, "tag"@) == Some(Json::Str(text))
            &&& lookup(b, "sessionId"@) == Some(Json::Str(session_id))
        }),
{
    let a = title_members(text, session_id);
    let b = tag_members(text, session_id);
    reveal_strlit("type");
    reveal_strlit("customTitle");
    reveal_strlit("tag");
    reveal_strlit("sessionId");
    assert("type"@.len() == 4 && "customTitle"@.len() == 11 && "tag"@.len() == 3
        && "sessionId"@.len() == 9);
    lemma_found(a, 0);
    lemma_found(a, 1);
    lemma_found(a, 2);
    lemma_found(b, 0);
    lemma_found(b, 1);
    lemma_found(b, 2);
}

} // verus!
