//! Transcripts: their entries, and the conversation that the entries form.
use serde_json::{Map as JsonMap, Value};
use vstd::prelude::*;

use crate::json::{
    field_is, flag_field, full_text_field, get, get_flag, get_full_text, get_text, json_view,
    lookup, member_lists, members, parsed, text_field, Json, Members,
};
use crate::text::{same, split, split_on, text_view, text_views, to_chars, trim, trimmed};

verus! {

broadcast use vstd::string::group_string_axioms;

/// A parsed line of a transcript.
pub type TranscriptEntry = JsonMap<String, Value>;

// ---------------------------------------------------------------------------
// Messages
// ---------------------------------------------------------------------------

/// The role of a [`SessionMessage`].
#[derive(Debug, Clone, Copy, PartialEq, Eq)]
pub enum SessionMessageType {
    /// A user-authored message.
    User,
    /// An assistant-authored message.
    Assistant,
}

/// A single conversation message reconstructed from a session transcript.
#[derive(Debug, PartialEq, Eq)]
pub struct SessionMessage {
    /// Who wrote the message.
    pub message_type: SessionMessageType,
    /// Message UUID (the transcript entry's `uuid`).
    pub uuid: String,
    /// Session ID the message belongs to (the entry's `sessionId`).
    pub session_id: String,
    /// The raw `message` payload from the transcript entry, if present.
    pub message: Option<Value>,
    /// Parent tool-use id; always `None` for transcript reads.
    pub parent_tool_use_id: Option<String>,
}

/// What a [`SessionMessage`] says.
pub ghost struct Message {
    pub message_type: SessionMessageType,
    pub uuid: Seq<char>,
    pub session_id: Seq<char>,
    pub message: Option<Json>,
    pub parent_tool_use_id: Option<Seq<char>>,
}

impl View for SessionMessage {
    type V = Message;

    open spec fn view(&self) -> Message {
        Message {
            message_type: self.message_type,
            uuid: self.uuid@,
            session_id: self.session_id@,
            message: json_view(self.message),
            parent_tool_use_id: text_view(self.parent_tool_use_id),
        }
    }
}

impl Clone for SessionMessage {
    fn clone(&self) -> (r: Self)
        ensures
            r@ == self@,
    {
        SessionMessage {
            message_type: self.message_type,
            uuid: self.uuid.clone(),
            session_id: self.session_id.clone(),
            message: match &self.message {
                Some(m) => Some(m.clone()),
                None => None,
            },
            parent_tool_use_id: match &self.parent_tool_use_id {
                Some(id) => Some(id.clone()),
                None => None,
            },
        }
    }
}

/// The messages of a list.
pub open spec fn message_views(v: Seq<SessionMessage>) -> Seq<Message> {
    Seq::new(v.len(), |i: int| v[i]@)
}

// ---------------------------------------------------------------------------
// Entries
// ---------------------------------------------------------------------------

/// Whether entries of type `t` carry `uuid` and `parentUuid` links.
pub open spec fn is_transcript_type(t: Seq<char>) -> bool {
    t == "user"@ || t == "assistant"@ || t == "progress"@ || t == "system"@ || t == "attachment"@
}

/// Whether an entry is a part of a transcript: of a linked type, with a
/// `uuid`.
pub open spec fn is_transcript_entry(e: Members) -> bool {
    &&& text_field(e, "type"@) matches Some(t) && is_transcript_type(t)
    &&& text_field(e, "uuid"@) is Some
}

/// The `uuid` of an entry, or the empty text.
pub open spec fn uuid_of(e: Members) -> Seq<char> {
    match text_field(e, "uuid"@) {
        Some(u) => u,
        None => ""@,
    }
}

/// The `parentUuid` of an entry, where it is not empty.
pub open spec fn parent_of(e: Members) -> Option<Seq<char>> {
    full_text_field(e, "parentUuid"@)
}

/// Whether an entry is a message of the user or of the assistant.
pub open spec fn is_conversation(e: Members) -> bool {
    text_field(e, "type"@) == Some("user"@) || text_field(e, "type"@) == Some("assistant"@)
}

/// Whether an entry is of a side chain, of a team, or meta.
pub open spec fn is_aside(e: Members) -> bool {
    ||| flag_field(e, "isSidechain"@)
    ||| full_text_field(e, "teamName"@) is Some
    ||| flag_field(e, "isMeta"@)
}

/// Whether an entry is a part of a transcript.
pub fn check_transcript_entry(e: &TranscriptEntry) -> (r: bool)
    ensures
        r == is_transcript_entry(members(*e)),
{
    let typed: bool = match get_text(e, "type") {
        Some(t) => same(t, "user") || same(t, "assistant") || same(t, "progress") || same(
            t,
            "system",
        ) || same(t, "attachment"),
        None => false,
    };
    typed && get_text(e, "uuid").is_some()
}

/// The `uuid` of an entry, or the empty text.
pub fn entry_uuid(e: &TranscriptEntry) -> (r: &str)
    ensures
        r@ == uuid_of(members(*e)),
{
    match get_text(e, "uuid") {
        Some(u) => u,
        None => "",
    }
}

/// The `parentUuid` of an entry, where it is not empty.
pub fn entry_parent(e: &TranscriptEntry) -> (r: Option<&str>)
    ensures
        crate::text::str_view(r) == parent_of(members(*e)),
{
    get_full_text(e, "parentUuid")
}

/// Whether an entry is a message of the user or of the assistant.
pub fn check_conversation(e: &TranscriptEntry) -> (r: bool)
    ensures
        r == is_conversation(members(*e)),
{
    field_is(e, "type", "user") || field_is(e, "type", "assistant")
}

/// Whether an entry is of a side chain, of a team, or meta.
fn check_aside(e: &TranscriptEntry) -> (r: bool)
    ensures
        r == is_aside(members(*e)),
{
    get_flag(e, "isSidechain") || get_full_text(e, "teamName").is_some() || get_flag(e, "isMeta")
}

// ---------------------------------------------------------------------------
// Reading a transcript
// ---------------------------------------------------------------------------

/// The entry that a value is, where it is a part of a transcript.
pub open spec fn entry_in(value: Option<Json>) -> Option<Members> {
    match value {
        Some(Json::Object(e)) => if is_transcript_entry(e) {
            Some(e)
        } else {
            None
        },
        _ => None,
    }
}

/// The entry on a line, where the line holds a part of a transcript.
pub open spec fn line_entry(line: Seq<char>) -> Option<Members> {
    let bare = trimmed(line);
    if bare.len() == 0 {
        None
    } else {
        entry_in(parsed(bare))
    }
}

/// The entries on lines. Lines that hold none are passed over.
pub open spec fn transcript_of(lines: Seq<Seq<char>>) -> Seq<Members>
    decreases lines.len(),
{
    if lines.len() == 0 {
        Seq::empty()
    } else {
        let before = transcript_of(lines.drop_last());
        match line_entry(lines.last()) {
            Some(e) => before.push(e),
            None => before,
        }
    }
}

/// The entry that a value is, where it is a part of a transcript.
pub fn transcript_entry(value: Option<Value>) -> (r: Option<TranscriptEntry>)
    ensures
        match r {
            Some(e) => entry_in(json_view(value)) == Some(members(e)),
            None => entry_in(json_view(value)) is None,
        },
{
    match &value {
        Some(v) => match v.as_object() {
            Some(e) => {
                if check_transcript_entry(e) {
                    Some(e.clone())
                } else {
                    None
                }
            },
            None => None,
        },
        None => None,
    }
}

/// Parses JSONL content into transcript entries, tolerating corrupt lines.
///
/// Only keeps entries with a `uuid` and a transcript message type.
pub fn parse_transcript_entries(content: &str) -> (r: Vec<TranscriptEntry>)
    ensures
        member_lists(r@) == transcript_of(split_on(content@, '\n')),
{
    let lines = split(content, '\n');
    let ghost all = split_on(content@, '\n');
    let mut entries: Vec<TranscriptEntry> = Vec::new();
    let mut i: usize = 0;
    proof {
        assert(all.take(0) =~= Seq::<Seq<char>>::empty());
        assert(member_lists(entries@) =~= Seq::<Members>::empty());
    }
    while i < lines.len()
        invariant
            all == text_views(lines@),
            i <= lines@.len(),
            member_lists(entries@) == transcript_of(all.take(i as int)),
        decreases lines@.len() - i,
    {
        let ghost were = entries@;
        proof {
            assert(all.take(i as int + 1).drop_last() =~= all.take(i as int));
            assert(all.take(i as int + 1).last() == lines@[i as int]@);
        }
        let bare = trim(&lines[i]);
        let cs = to_chars(&bare);
        if cs.len() > 0 {
            match transcript_entry(crate::json::parse(&bare)) {
                Some(e) => {
                    entries.push(e);
                    proof {
                        assert(member_lists(entries@) =~= member_lists(were).push(members(e)));
                    }
                },
                None => {},
            }
        }
        i = i + 1;
    }
    proof {
        assert(all.take(all.len() as int) =~= all);
    }
    entries
}

/// The entries that are parts of a transcript.
pub open spec fn transcript_only(es: Seq<Members>) -> Seq<Members> {
    es.filter(|e: Members| is_transcript_entry(e))
}

/// Keeps the entries with a `uuid` and a transcript message type.
pub fn filter_transcript_entries(entries: &Vec<TranscriptEntry>) -> (r: Vec<TranscriptEntry>)
    ensures
        member_lists(r@) == transcript_only(member_lists(entries@)),
{
    let ghost all = member_lists(entries@);
    let ghost keep = |e: Members| is_transcript_entry(e);
    let mut out: Vec<TranscriptEntry> = Vec::new();
    let mut i: usize = 0;
    proof {
        reveal(Seq::filter);
        assert(all.take(0) =~= Seq::<Members>::empty());
        assert(member_lists(out@) =~= all.take(0).filter(keep));
    }
    while i < entries.len()
        invariant
            all == member_lists(entries@),
            keep == (|e: Members| is_transcript_entry(e)),
            i <= entries@.len(),
            member_lists(out@) == all.take(i as int).filter(keep),
        decreases entries@.len() - i,
    {
        let ghost were = out@;
        proof {
            reveal(Seq::filter);
            assert(all.take(i as int + 1).drop_last() =~= all.take(i as int));
            assert(all.take(i as int + 1).last() == members(entries@[i as int]));
        }
        if check_transcript_entry(&entries[i]) {
            let e = entries[i].clone();
            out.push(e);
            proof {
                assert(member_lists(out@) =~= member_lists(were).push(members(e)));
            }
        }
        i = i + 1;
    }
    proof {
        assert(all.take(all.len() as int) =~= all);
    }
    out
}

// ---------------------------------------------------------------------------
// The conversation chain
// ---------------------------------------------------------------------------

/// The position of the last entry with a `uuid`.
pub open spec fn place_of(es: Seq<Members>, uuid: Seq<char>) -> Option<int>
    decreases es.len(),
{
    if es.len() == 0 {
        None
    } else if uuid_of(es.last()) == uuid {
        Some(es.len() - 1)
    } else {
        place_of(es.drop_last(), uuid)
    }
}

/// The positions that are reached from position `at` by following
/// `parentUuid`, up to an entry without a parent in the transcript or to a
/// `uuid` that was `seen` before.
pub open spec fn ancestry(es: Seq<Members>, at: int, seen: Seq<Seq<char>>) -> Seq<int>
    decreases es.len() - seen.len(),
{
    if at < 0 || at >= es.len() || seen.len() >= es.len() || seen.contains(uuid_of(es[at])) {
        Seq::empty()
    } else {
        seq![at] + match parent_of(es[at]) {
            Some(p) => match place_of(es, p) {
                Some(k) => ancestry(es, k, seen.push(uuid_of(es[at]))),
                None => Seq::empty(),
            },
            None => Seq::empty(),
        }
    }
}

/// Whether no entry names the entry at position `i` as its parent.
pub open spec fn is_terminal(es: Seq<Members>, i: int) -> bool {
    forall|j: int| 0 <= j < es.len() ==> parent_of(#[trigger] es[j]) != Some(uuid_of(es[i]))
}

/// The first of some positions that holds a message of the conversation.
pub open spec fn first_conversation(es: Seq<Members>, places: Seq<int>) -> Option<int>
    decreases places.len(),
{
    if places.len() == 0 {
        None
    } else if is_conversation(es[places[0]]) {
        Some(places[0])
    } else {
        first_conversation(es, places.skip(1))
    }
}

/// The messages that the terminal entries before position `n` lead up to: of
/// each the nearest one.
pub open spec fn leaves(es: Seq<Members>, n: int) -> Seq<int>
    decreases n,
{
    if n <= 0 {
        Seq::empty()
    } else {
        let before = leaves(es, n - 1);
        if is_terminal(es, n - 1) {
            match first_conversation(es, ancestry(es, n - 1, Seq::empty())) {
                Some(leaf) => before.push(leaf),
                None => before,
            }
        } else {
            before
        }
    }
}

/// The position of an entry by its `uuid`: that of the last entry with the
/// same `uuid`.
pub open spec fn rank(es: Seq<Members>, at: int) -> int {
    match place_of(es, uuid_of(es[at])) {
        Some(k) => k,
        None => 0,
    }
}

/// The highest ranked of some positions, and the first of equals.
pub open spec fn best(es: Seq<Members>, places: Seq<int>) -> int
    decreases places.len(),
{
    if places.len() <= 1 {
        places[0]
    } else {
        let before = best(es, places.drop_last());
        if rank(es, places.last()) > rank(es, before) {
            places.last()
        } else {
            before
        }
    }
}

/// The positions that hold no entry of a side chain, of a team, or meta.
pub open spec fn main_only(es: Seq<Members>, places: Seq<int>) -> Seq<int> {
    places.filter(|i: int| !is_aside(es[i]))
}

/// The last message of the conversation, where there is one.
pub open spec fn chain_leaf(es: Seq<Members>) -> Option<int> {
    let all = leaves(es, es.len() as int);
    let main = main_only(es, all);
    if all.len() == 0 {
        None
    } else if main.len() > 0 {
        Some(best(es, main))
    } else {
        Some(best(es, all))
    }
}

/// The entries from the root to position `leaf`.
pub open spec fn chain_to(es: Seq<Members>, leaf: int) -> Seq<Members> {
    let up = ancestry(es, leaf, Seq::empty());
    Seq::new(up.len(), |i: int| es[up[up.len() - 1 - i]])
}

/// The conversation of a transcript, from the root to the leaf.
pub open spec fn conversation(es: Seq<Members>) -> Seq<Members> {
    match chain_leaf(es) {
        Some(leaf) => chain_to(es, leaf),
        None => Seq::empty(),
    }
}

/// The position of an entry found by `place_of`.
pub proof fn lemma_place_of(es: Seq<Members>, uuid: Seq<char>)
    ensures
        match place_of(es, uuid) {
            Some(k) => 0 <= k < es.len() && uuid_of(es[k]) == uuid && forall|j: int|
                k < j < es.len() ==> uuid_of(#[trigger] es[j]) != uuid,
            None => forall|j: int| 0 <= j < es.len() ==> uuid_of(#[trigger] es[j]) != uuid,
        },
    decreases es.len(),
{
    if es.len() > 0 && uuid_of(es.last()) != uuid {
        lemma_place_of(es.drop_last(), uuid);
        assert(forall|j: int| 0 <= j < es.len() - 1 ==> es.drop_last()[j] == es[j]);
    }
}

/// Ancestry stays inside the transcript.
pub proof fn lemma_ancestry_range(es: Seq<Members>, at: int, seen: Seq<Seq<char>>)
    ensures
        forall|i: int|
            0 <= i < ancestry(es, at, seen).len() ==> 0 <= #[trigger] ancestry(es, at, seen)[i]
                < es.len(),
        ancestry(es, at, seen).len() > 0 ==> ancestry(es, at, seen)[0] == at,
    decreases es.len() - seen.len(),
{
    if !(at < 0 || at >= es.len() || seen.len() >= es.len() || seen.contains(uuid_of(es[at]))) {
        if let Some(p) = parent_of(es[at]) {
            if let Some(k) = place_of(es, p) {
                lemma_ancestry_range(es, k, seen.push(uuid_of(es[at])));
            }
        }
    }
}

/// A leaf is a message inside the transcript.
proof fn lemma_first_conversation(es: Seq<Members>, places: Seq<int>)
    requires
        forall|i: int| 0 <= i < places.len() ==> 0 <= #[trigger] places[i] < es.len(),
    ensures
        match first_conversation(es, places) {
            Some(k) => 0 <= k < es.len() && is_conversation(es[k]),
            None => true,
        },
    decreases places.len(),
{
    if places.len() > 0 && !is_conversation(es[places[0]]) {
        assert forall|i: int| 0 <= i < places.skip(1).len() implies 0 <= #[trigger] places.skip(1)[i]
            < es.len() by {
            assert(places.skip(1)[i] == places[i + 1]);
        }
        lemma_first_conversation(es, places.skip(1));
    }
}

/// Leaves are messages inside the transcript.
pub proof fn lemma_leaves(es: Seq<Members>, n: int)
    requires
        n <= es.len(),
    ensures
        forall|i: int|
            0 <= i < leaves(es, n).len() ==> 0 <= #[trigger] leaves(es, n)[i] < es.len()
                && is_conversation(es[leaves(es, n)[i]]),
    decreases n,
{
    if n > 0 {
        lemma_leaves(es, n - 1);
        lemma_ancestry_range(es, n - 1, Seq::empty());
        lemma_first_conversation(es, ancestry(es, n - 1, Seq::empty()));
        let before = leaves(es, n - 1);
        let now = leaves(es, n);
        assert forall|i: int| 0 <= i < now.len() implies 0 <= #[trigger] now[i] < es.len()
            && is_conversation(es[now[i]]) by {
            if i < before.len() {
                assert(now[i] == before[i]);
            }
        }
    }
}

/// The best of some positions is one of them.
pub proof fn lemma_best(es: Seq<Members>, places: Seq<int>)
    requires
        places.len() > 0,
    ensures
        places.contains(best(es, places)),
    decreases places.len(),
{
    if places.len() > 1 {
        lemma_best(es, places.drop_last());
        let b = best(es, places.drop_last());
        let i = choose|i: int| 0 <= i < places.len() - 1 && places.drop_last()[i] == b;
        assert(places[i] == b);
        assert(places[places.len() - 1] == places.last());
    } else {
        assert(places[0] == best(es, places));
    }
}

/// The leaf of a conversation is a message inside the transcript.
pub proof fn lemma_chain_leaf(es: Seq<Members>)
    ensures
        match chain_leaf(es) {
            Some(k) => 0 <= k < es.len() && is_conversation(es[k]),
            None => true,
        },
{
    let all = leaves(es, es.len() as int);
    let main = main_only(es, all);
    lemma_leaves(es, es.len() as int);
    if all.len() > 0 {
        lemma_best(es, all);
        if main.len() > 0 {
            lemma_best(es, main);
            let b = best(es, main);
            broadcast use vstd::seq_lib::group_seq_properties;

            assert(all.contains(b)) by {
                let keep = |i: int| !is_aside(es[i]);
                all.lemma_filter_contains_rev(keep, b);
            }
        }
    }
}

/// The position of the last entry with a `uuid`.
fn find_place(entries: &Vec<TranscriptEntry>, uuid: &str) -> (r: Option<usize>)
    ensures
        match r {
            Some(k) => place_of(member_lists(entries@), uuid@) == Some(k as int) && k
                < entries@.len(),
            None => place_of(member_lists(entries@), uuid@) is None,
        },
{
    let ghost es = member_lists(entries@);
    let mut n: usize = entries.len();
    proof {
        assert(es.take(n as int) =~= es);
    }
    while n > 0
        invariant
            es == member_lists(entries@),
            n <= entries@.len(),
            place_of(es, uuid@) == place_of(es.take(n as int), uuid@),
        decreases n,
    {
        proof {
            assert(es.take(n as int).last() == members(entries@[n as int - 1]));
            assert(es.take(n as int).drop_last() =~= es.take(n as int - 1));
        }
        if same(entry_uuid(&entries[n - 1]), uuid) {
            return Some(n - 1);
        }
        n = n - 1;
    }
    None
}

/// Whether a list holds a text.
pub fn list_has(list: &Vec<String>, s: &str) -> (r: bool)
    ensures
        r == text_views(list@).contains(s@),
{
    let ghost all = text_views(list@);
    let mut i: usize = 0;
    while i < list.len()
        invariant
            all == text_views(list@),
            i <= list@.len(),
            forall|j: int| 0 <= j < i ==> all[j] != s@,
        decreases list@.len() - i,
    {
        proof {
            assert(all[i as int] == list@[i as int]@);
        }
        if same(&list[i], s) {
            return true;
        }
        i = i + 1;
    }
    false
}

/// The positions by their mathematical values.
pub open spec fn places(v: Seq<usize>) -> Seq<int> {
    Seq::new(v.len(), |i: int| v[i] as int)
}

/// The positions that are reached from position `at` by following
/// `parentUuid`.
fn walk_up(entries: &Vec<TranscriptEntry>, at: usize) -> (r: Vec<usize>)
    requires
        at < entries@.len(),
    ensures
        places(r@) == ancestry(member_lists(entries@), at as int, Seq::empty()),
{
    let ghost es = member_lists(entries@);
    let mut up: Vec<usize> = Vec::new();
    let mut seen: Vec<String> = Vec::new();
    let mut cur: usize = at;
    proof {
        assert(text_views(seen@) =~= Seq::<Seq<char>>::empty());
        assert(places(up@) + ancestry(es, cur as int, text_views(seen@)) =~= ancestry(
            es,
            at as int,
            Seq::empty(),
        ));
    }
    while seen.len() < entries.len()
        invariant
            es == member_lists(entries@),
            cur < entries@.len(),
            seen@.len() <= entries@.len(),
            places(up@) + ancestry(es, cur as int, text_views(seen@)) == ancestry(
                es,
                at as int,
                Seq::empty(),
            ),
        decreases entries@.len() - seen@.len(),
    {
        let uuid: &str = entry_uuid(&entries[cur]);
        let ghost was = places(up@);
        let ghost before = text_views(seen@);
        if list_has(&seen, uuid) {
            proof {
                assert(was + Seq::<int>::empty() =~= was);
            }
            return up;
        }
        let ghost seen0 = seen@;
        up.push(cur);
        seen.push(uuid.to_owned());
        proof {
            assert(places(up@) =~= was.push(cur as int));
            assert(text_views(seen@) =~= before.push(uuid@));
        }
        match entry_parent(&entries[cur]) {
            Some(p) => match find_place(entries, p) {
                Some(k) => {
                    proof {
                        assert(was + (seq![cur as int] + ancestry(es, k as int, text_views(seen@)))
                            =~= places(up@) + ancestry(es, k as int, text_views(seen@)));
                    }
                    cur = k;
                },
                None => {
                    proof {
                        assert(was + (seq![cur as int] + Seq::<int>::empty()) =~= places(up@));
                    }
                    return up;
                },
            },
            None => {
                proof {
                    assert(was + (seq![cur as int] + Seq::<int>::empty()) =~= places(up@));
                }
                return up;
            },
        }
    }
    proof {
        assert(places(up@) + Seq::<int>::empty() =~= places(up@));
    }
    up
}

/// Whether no entry names the entry at position `i` as its parent.
fn check_terminal(entries: &Vec<TranscriptEntry>, i: usize) -> (r: bool)
    requires
        i < entries@.len(),
    ensures
        r == is_terminal(member_lists(entries@), i as int),
{
    let ghost es = member_lists(entries@);
    let uuid: &str = entry_uuid(&entries[i]);
    let mut j: usize = 0;
    while j < entries.len()
        invariant
            es == member_lists(entries@),
            i < entries@.len(),
            uuid@ == uuid_of(es[i as int]),
            j <= entries@.len(),
            forall|k: int| 0 <= k < j ==> parent_of(#[trigger] es[k]) != Some(uuid@),
        decreases entries@.len() - j,
    {
        proof {
            assert(es[j as int] == members(entries@[j as int]));
        }
        match entry_parent(&entries[j]) {
            Some(p) => {
                if same(p, uuid) {
                    return false;
                }
            },
            None => {},
        }
        j = j + 1;
    }
    true
}

/// The first of some positions that holds a message of the conversation.
fn find_conversation(entries: &Vec<TranscriptEntry>, up: &Vec<usize>) -> (r: Option<usize>)
    requires
        forall|i: int| 0 <= i < up@.len() ==> (#[trigger] up@[i]) < entries@.len(),
    ensures
        match r {
            Some(k) => first_conversation(member_lists(entries@), places(up@)) == Some(k as int)
                && k < entries@.len(),
            None => first_conversation(member_lists(entries@), places(up@)) is None,
        },
{
    let ghost es = member_lists(entries@);
    let ghost all = places(up@);
    let mut i: usize = 0;
    proof {
        assert(all.skip(0) =~= all);
    }
    while i < up.len()
        invariant
            es == member_lists(entries@),
            all == places(up@),
            forall|i: int| 0 <= i < up@.len() ==> (#[trigger] up@[i]) < entries@.len(),
            i <= up@.len(),
            first_conversation(es, all) == first_conversation(es, all.skip(i as int)),
        decreases up@.len() - i,
    {
        let k: usize = up[i];
        proof {
            assert(all.skip(i as int)[0] == k);
            assert(all.skip(i as int).skip(1) =~= all.skip(i as int + 1));
            assert(es[k as int] == members(entries@[k as int]));
        }
        if check_conversation(&entries[k]) {
            return Some(k);
        }
        i = i + 1;
    }
    None
}

/// The messages that the terminal entries lead up to.
fn find_leaves(entries: &Vec<TranscriptEntry>) -> (r: Vec<usize>)
    ensures
        places(r@) == leaves(member_lists(entries@), entries@.len() as int),
        forall|i: int| 0 <= i < r@.len() ==> (#[trigger] r@[i]) < entries@.len(),
{
    let ghost es = member_lists(entries@);
    let mut out: Vec<usize> = Vec::new();
    let mut i: usize = 0;
    proof {
        assert(places(out@) =~= leaves(es, 0));
    }
    while i < entries.len()
        invariant
            es == member_lists(entries@),
            i <= entries@.len(),
            places(out@) == leaves(es, i as int),
            forall|j: int| 0 <= j < out@.len() ==> (#[trigger] out@[j]) < entries@.len(),
        decreases entries@.len() - i,
    {
        let ghost were = out@;
        if check_terminal(entries, i) {
            let up = walk_up(entries, i);
            proof {
                lemma_ancestry_range(es, i as int, Seq::empty());
                assert forall|j: int| 0 <= j < up@.len() implies (#[trigger] up@[j])
                    < entries@.len() by {
                    assert(places(up@)[j] == up@[j]);
                }
            }
            match find_conversation(entries, &up) {
                Some(k) => {
                    out.push(k);
                    proof {
                        assert(places(out@) =~= places(were).push(k as int));
                    }
                },
                None => {},
            }
        }
        i = i + 1;
    }
    out
}

/// The highest ranked of some positions, and the first of equals.
fn pick_best(entries: &Vec<TranscriptEntry>, candidates: &Vec<usize>) -> (r: usize)
    requires
        candidates@.len() > 0,
        forall|i: int| 0 <= i < candidates@.len() ==> (#[trigger] candidates@[i]) < entries@.len(),
    ensures
        r == best(member_lists(entries@), places(candidates@)),
        r < entries@.len(),
{
    let ghost es = member_lists(entries@);
    let ghost all = places(candidates@);
    let mut chosen: usize = candidates[0];
    let mut chosen_rank: usize = entry_rank(entries, chosen);
    let mut i: usize = 1;
    proof {
        assert(all.take(1)[0] == chosen);
    }
    while i < candidates.len()
        invariant
            es == member_lists(entries@),
            all == places(candidates@),
            forall|j: int|
                0 <= j < candidates@.len() ==> (#[trigger] candidates@[j]) < entries@.len(),
            1 <= i <= candidates@.len(),
            chosen == best(es, all.take(i as int)),
            chosen < entries@.len(),
            chosen_rank == rank(es, chosen as int),
        decreases candidates@.len() - i,
    {
        let cur: usize = candidates[i];
        let cur_rank: usize = entry_rank(entries, cur);
        proof {
            assert(all.take(i as int + 1).drop_last() =~= all.take(i as int));
            assert(all.take(i as int + 1).last() == cur);
        }
        if cur_rank > chosen_rank {
            chosen = cur;
            chosen_rank = cur_rank;
        }
        i = i + 1;
    }
    proof {
        assert(all.take(all.len() as int) =~= all);
    }
    chosen
}

/// The position of an entry by its `uuid`.
fn entry_rank(entries: &Vec<TranscriptEntry>, at: usize) -> (r: usize)
    requires
        at < entries@.len(),
    ensures
        r == rank(member_lists(entries@), at as int),
{
    proof {
        assert(member_lists(entries@)[at as int] == members(entries@[at as int]));
    }
    match find_place(entries, entry_uuid(&entries[at])) {
        Some(k) => k,
        None => 0,
    }
}

/// The positions that hold no entry of a side chain, of a team, or meta.
fn keep_main(entries: &Vec<TranscriptEntry>, candidates: &Vec<usize>) -> (r: Vec<usize>)
    requires
        forall|i: int| 0 <= i < candidates@.len() ==> (#[trigger] candidates@[i]) < entries@.len(),
    ensures
        places(r@) == main_only(member_lists(entries@), places(candidates@)),
        forall|i: int| 0 <= i < r@.len() ==> (#[trigger] r@[i]) < entries@.len(),
{
    let ghost es = member_lists(entries@);
    let ghost all = places(candidates@);
    let ghost keep = |i: int| !is_aside(es[i]);
    let mut out: Vec<usize> = Vec::new();
    let mut i: usize = 0;
    proof {
        reveal(Seq::filter);
        assert(all.take(0) =~= Seq::<int>::empty());
        assert(places(out@) =~= all.take(0).filter(keep));
    }
    while i < candidates.len()
        invariant
            es == member_lists(entries@),
            all == places(candidates@),
            keep == (|i: int| !is_aside(es[i])),
            forall|j: int|
                0 <= j < candidates@.len() ==> (#[trigger] candidates@[j]) < entries@.len(),
            forall|j: int| 0 <= j < out@.len() ==> (#[trigger] out@[j]) < entries@.len(),
            i <= candidates@.len(),
            places(out@) == all.take(i as int).filter(keep),
        decreases candidates@.len() - i,
    {
        let ghost were = out@;
        let k: usize = candidates[i];
        proof {
            reveal(Seq::filter);
            assert(all.take(i as int + 1).drop_last() =~= all.take(i as int));
            assert(all.take(i as int + 1).last() == k);
            assert(es[k as int] == members(entries@[k as int]));
        }
        if !check_aside(&entries[k]) {
            out.push(k);
            proof {
                assert(places(out@) =~= places(were).push(k as int));
            }
        }
        i = i + 1;
    }
    proof {
        assert(all.take(all.len() as int) =~= all);
    }
    out
}

/// The entries from the root to position `leaf`.
fn collect_chain(entries: &Vec<TranscriptEntry>, leaf: usize) -> (r: Vec<TranscriptEntry>)
    requires
        leaf < entries@.len(),
    ensures
        member_lists(r@) == chain_to(member_lists(entries@), leaf as int),
{
    let ghost es = member_lists(entries@);
    let up = walk_up(entries, leaf);
    let ghost chain = chain_to(es, leaf as int);
    proof {
        lemma_ancestry_range(es, leaf as int, Seq::empty());
    }
    let mut out: Vec<TranscriptEntry> = Vec::new();
    let mut n: usize = up.len();
    proof {
        assert(member_lists(out@) =~= chain.take(0));
    }
    while n > 0
        invariant
            es == member_lists(entries@),
            chain == chain_to(es, leaf as int),
            places(up@) == ancestry(es, leaf as int, Seq::empty()),
            forall|i: int|
                0 <= i < ancestry(es, leaf as int, Seq::empty()).len() ==> 0
                    <= #[trigger] ancestry(es, leaf as int, Seq::empty())[i] < es.len(),
            n <= up@.len(),
            member_lists(out@) == chain.take(up@.len() - n),
        decreases n,
    {
        n = n - 1;
        let k: usize = up[n];
        let ghost were = out@;
        proof {
            assert(places(up@)[n as int] == k);
            assert(es[k as int] == members(entries@[k as int]));
        }
        let e = entries[k].clone();
        out.push(e);
        proof {
            assert(member_lists(out@) =~= member_lists(were).push(members(e)));
            assert(chain[up@.len() - n - 1] == es[k as int]);
            assert(member_lists(out@) =~= chain.take(up@.len() - n));
        }
    }
    proof {
        assert(chain.take(chain.len() as int) =~= chain);
    }
    out
}

/// Builds the conversation chain by finding the leaf and walking `parentUuid`.
///
/// Returns messages in chronological order (root to leaf).
pub fn build_conversation_chain(entries: &Vec<TranscriptEntry>) -> (r: Vec<TranscriptEntry>)
    ensures
        member_lists(r@) == conversation(member_lists(entries@)),
{
    let all = find_leaves(entries);
    if all.len() == 0 {
        let none: Vec<TranscriptEntry> = Vec::new();
        proof {
            assert(member_lists(none@) =~= Seq::<Members>::empty());
        }
        return none;
    }
    let main = keep_main(entries, &all);
    let leaf: usize = if main.len() == 0 {
        pick_best(entries, &all)
    } else {
        pick_best(entries, &main)
    };
    collect_chain(entries, leaf)
}

// ---------------------------------------------------------------------------
// What a chain is
// ---------------------------------------------------------------------------

/// Each entry of an ancestry is the last one with the `uuid` that the entry
/// before it names as its parent, no `uuid` comes twice, and none that was
/// seen before comes at all.
pub proof fn lemma_ancestry_links(es: Seq<Members>, at: int, seen: Seq<Seq<char>>)
    ensures
        ({
            let up = ancestry(es, at, seen);
            &&& forall|i: int|
                0 <= i < up.len() - 1 ==> parent_of(es[#[trigger] up[i]]) == Some(
                    uuid_of(es[up[i + 1]]),
                )
            &&& forall|i: int|
                0 <= i < up.len() ==> !seen.contains(uuid_of(es[#[trigger] up[i]]))
            &&& forall|i: int, j: int|
                0 <= i < j < up.len() ==> uuid_of(es[#[trigger] up[i]]) != uuid_of(
                    es[#[trigger] up[j]],
                )
        }),
    decreases es.len() - seen.len(),
{
    let up = ancestry(es, at, seen);
    if !(at < 0 || at >= es.len() || seen.len() >= es.len() || seen.contains(uuid_of(es[at]))) {
        if let Some(p) = parent_of(es[at]) {
            if let Some(k) = place_of(es, p) {
                let u = uuid_of(es[at]);
                let rest = ancestry(es, k, seen.push(u));
                lemma_place_of(es, p);
                lemma_ancestry_links(es, k, seen.push(u));
                lemma_ancestry_range(es, k, seen.push(u));
                assert(up =~= seq![at] + rest);
                assert forall|i: int| 0 <= i < up.len() implies !seen.contains(
                    uuid_of(es[#[trigger] up[i]]),
                ) by {
                    if i > 0 {
                        assert(up[i] == rest[i - 1]);
                        let v = uuid_of(es[rest[i - 1]]);
                        if seen.contains(v) {
                            let n = choose|n: int| 0 <= n < seen.len() && seen[n] == v;
                            assert(seen.push(u)[n] == v);
                        }
                    }
                }
                assert forall|i: int| 0 <= i < up.len() - 1 implies parent_of(es[#[trigger] up[i]])
                    == Some(uuid_of(es[up[i + 1]])) by {
                    if i > 0 {
                        assert(up[i] == rest[i - 1]);
                        assert(up[i + 1] == rest[i]);
                    } else {
                        assert(up[1] == rest[0]);
                    }
                }
                assert forall|i: int, j: int| 0 <= i < j < up.len() implies uuid_of(
                    es[#[trigger] up[i]],
                ) != uuid_of(es[#[trigger] up[j]]) by {
                    assert(up[j] == rest[j - 1]);
                    if i > 0 {
                        assert(up[i] == rest[i - 1]);
                    } else {
                        assert(seen.push(u)[seen.len() as int] == u);
                        assert(seen.push(u).contains(u));
                    }
                }
            }
        }
    }
}

/// The `uuid`s of a transcript.
pub open spec fn uuids(es: Seq<Members>) -> Seq<Seq<char>> {
    Seq::new(es.len(), |i: int| uuid_of(es[i]))
}

/// There are not more different `uuid`s than entries.
pub proof fn lemma_few_uuids(es: Seq<Members>, seen: Seq<Seq<char>>)
    requires
        seen.no_duplicates(),
        forall|i: int| 0 <= i < seen.len() ==> uuids(es).contains(#[trigger] seen[i]),
    ensures
        seen.len() <= es.len(),
{
    let all = uuids(es);
    seen.unique_seq_to_set();
    all.lemma_cardinality_of_set();
    assert(seen.to_set().subset_of(all.to_set())) by {
        assert forall|u: Seq<char>| seen.to_set().contains(u) implies all.to_set().contains(u) by {
            assert(seen.contains(u));
            let i = choose|i: int| 0 <= i < seen.len() && seen[i] == u;
            assert(all.contains(seen[i]));
        }
    }
    vstd::set_lib::lemma_len_subset(seen.to_set(), all.to_set());
}

/// An ancestry ends at an entry without a parent, at one whose parent is not
/// in the transcript, or at one whose parent was passed already.
pub proof fn lemma_ancestry_end(es: Seq<Members>, at: int, seen: Seq<Seq<char>>)
    requires
        0 <= at < es.len(),
        seen.no_duplicates(),
        forall|i: int| 0 <= i < seen.len() ==> uuids(es).contains(#[trigger] seen[i]),
        !seen.contains(uuid_of(es[at])),
    ensures
        ({
            let up = ancestry(es, at, seen);
            &&& up.len() > 0
            &&& match parent_of(es[up.last()]) {
                Some(p) => place_of(es, p) is None || seen.contains(p) || exists|i: int|
                    0 <= i < up.len() && uuid_of(es[#[trigger] up[i]]) == p,
                None => true,
            }
        }),
    decreases es.len() - seen.len(),
{
    let u = uuid_of(es[at]);
    let next = seen.push(u);
    assert(uuids(es)[at] == u);
    assert(uuids(es).contains(u));
    assert forall|i: int| 0 <= i < next.len() implies uuids(es).contains(#[trigger] next[i]) by {
        if i < seen.len() {
            assert(next[i] == seen[i]);
        }
    }
    assert(next.no_duplicates()) by {
        assert forall|i: int, j: int| 0 <= i < next.len() && 0 <= j < next.len() && i != j implies next[i]
            != next[j] by {
            if i < seen.len() {
                assert(seen.contains(seen[i]));
            }
            if j < seen.len() {
                assert(seen.contains(seen[j]));
            }
        }
    }
    lemma_few_uuids(es, next);
    let up = ancestry(es, at, seen);
    if let Some(p) = parent_of(es[at]) {
        if let Some(k) = place_of(es, p) {
            lemma_place_of(es, p);
            let rest = ancestry(es, k, next);
            assert(up =~= seq![at] + rest);
            if next.contains(p) {
                assert(rest.len() == 0);
                assert(up[0] == at);
                let n = choose|n: int| 0 <= n < next.len() && next[n] == p;
                if n < seen.len() {
                    assert(seen[n] == p);
                    assert(seen.contains(p));
                } else {
                    assert(uuid_of(es[up[0]]) == p);
                }
            } else {
                lemma_ancestry_end(es, k, next);
                assert(up.last() == rest.last());
                if let Some(q) = parent_of(es[up.last()]) {
                    if place_of(es, q) is Some {
                        if next.contains(q) {
                            let n = choose|n: int| 0 <= n < next.len() && next[n] == q;
                            if n < seen.len() {
                                assert(seen[n] == q);
                                assert(seen.contains(q));
                            } else {
                                assert(uuid_of(es[up[0]]) == q);
                            }
                        } else {
                            let i = choose|i: int|
                                0 <= i < rest.len() && uuid_of(es[#[trigger] rest[i]]) == q;
                            assert(up[i + 1] == rest[i]);
                        }
                    }
                }
            }
        } else {
            assert(up =~= seq![at]);
        }
    } else {
        assert(up =~= seq![at]);
    }
}

/// The conversation of a transcript holds entries of the transcript. Each
/// names the one before it as its parent, no `uuid` comes twice, the last is a
/// message of the user or of the assistant, and the first has no parent in the
/// transcript but one of the conversation itself, as in a loop of parents.
pub proof fn law_conversation_is_a_chain(es: Seq<Members>)
    ensures
        ({
            let chain = conversation(es);
            &&& forall|i: int| 0 <= i < chain.len() ==> es.contains(#[trigger] chain[i])
            &&& forall|i: int|
                0 < i < chain.len() ==> parent_of(#[trigger] chain[i]) == Some(
                    uuid_of(chain[i - 1]),
                )
            &&& forall|i: int, j: int|
                0 <= i < j < chain.len() ==> uuid_of(#[trigger] chain[i]) != uuid_of(
                    #[trigger] chain[j],
                )
            &&& chain.len() > 0 ==> is_conversation(chain.last())
            &&& chain.len() > 0 ==> match parent_of(chain[0]) {
                Some(p) => place_of(es, p) is None || exists|i: int|
                    0 <= i < chain.len() && uuid_of(#[trigger] chain[i]) == p,
                None => true,
            }
        }),
{
    lemma_chain_leaf(es);
    let chain = conversation(es);
    if let Some(leaf) = chain_leaf(es) {
        let up = ancestry(es, leaf, Seq::empty());
        let n = up.len() as int;
        lemma_ancestry_range(es, leaf, Seq::empty());
        lemma_ancestry_links(es, leaf, Seq::empty());
        lemma_ancestry_end(es, leaf, Seq::empty());
        assert(chain.len() == n);
        assert forall|i: int| 0 <= i < n implies es.contains(#[trigger] chain[i]) by {
            assert(chain[i] == es[up[n - 1 - i]]);
        }
        assert forall|i: int| 0 < i < n implies parent_of(#[trigger] chain[i]) == Some(
            uuid_of(chain[i - 1]),
        ) by {
            assert(chain[i] == es[up[n - 1 - i]]);
            assert(chain[i - 1] == es[up[n - i]]);
            assert(up[n - 1 - i + 1] == up[n - i]);
        }
        assert forall|i: int, j: int| 0 <= i < j < n implies uuid_of(#[trigger] chain[i])
            != uuid_of(#[trigger] chain[j]) by {
            assert(chain[i] == es[up[n - 1 - i]]);
            assert(chain[j] == es[up[n - 1 - j]]);
        }
        assert(chain.last() == es[up[0]]);
        assert(chain[0] == es[up.last()]);
        if let Some(p) = parent_of(chain[0]) {
            if place_of(es, p) is Some {
                let i = choose|i: int| 0 <= i < up.len() && uuid_of(es[#[trigger] up[i]]) == p;
                assert(chain[n - 1 - i] == es[up[i]]);
            }
        }
    }
}

// ---------------------------------------------------------------------------
// Messages of a conversation
// ---------------------------------------------------------------------------

/// Whether an entry is shown as a message of the conversation.
pub open spec fn is_visible(e: Members) -> bool {
    is_conversation(e) && !is_aside(e)
}

/// The message that an entry holds.
pub open spec fn message_of(e: Members) -> Message {
    Message {
        message_type: if text_field(e, "type"@) == Some("user"@) {
            SessionMessageType::User
        } else {
            SessionMessageType::Assistant
        },
        uuid: uuid_of(e),
        session_id: match text_field(e, "sessionId"@) {
            Some(s) => s,
            None => ""@,
        },
        message: lookup(e, "message"@),
        parent_tool_use_id: None,
    }
}

/// The messages that the visible ones of some entries hold.
pub open spec fn visible_messages(es: Seq<Members>) -> Seq<Message> {
    let shown = es.filter(|e: Members| is_visible(e));
    Seq::new(shown.len(), |i: int| message_of(shown[i]))
}

/// The messages that the conversation entries among some entries hold.
pub open spec fn conversation_messages(es: Seq<Members>) -> Seq<Message> {
    let shown = es.filter(|e: Members| is_conversation(e));
    Seq::new(shown.len(), |i: int| message_of(shown[i]))
}

/// The page of a list from `offset` on, with at most `limit` items. No limit,
/// or one of zero, is none.
pub open spec fn paged<T>(items: Seq<T>, limit: Option<usize>, offset: usize) -> Seq<T> {
    let rest = if offset < items.len() {
        items.skip(offset as int)
    } else {
        Seq::empty()
    };
    match limit {
        Some(n) => if 0 < n < rest.len() {
            rest.take(n as int)
        } else {
            rest
        },
        None => rest,
    }
}

/// Returns `true` if the entry should be included in the returned messages.
pub fn is_visible_message(entry: &TranscriptEntry) -> (r: bool)
    ensures
        r == is_visible(members(*entry)),
{
    check_conversation(entry) && !check_aside(entry)
}

/// Converts a transcript entry into a [`SessionMessage`].
pub fn to_session_message(entry: &TranscriptEntry) -> (r: SessionMessage)
    ensures
        r@ == message_of(members(*entry)),
        json_view(r.message) == lookup(members(*entry), "message"@),
        r.uuid@ == uuid_of(members(*entry)),
{
    let message_type = if field_is(entry, "type", "user") {
        SessionMessageType::User
    } else {
        SessionMessageType::Assistant
    };
    let session_id: &str = match get_text(entry, "sessionId") {
        Some(s) => s,
        None => "",
    };
    let message = match get(entry, "message") {
        Some(v) => Some(v.clone()),
        None => None,
    };
    SessionMessage {
        message_type,
        uuid: entry_uuid(entry).to_owned(),
        session_id: session_id.to_owned(),
        message,
        parent_tool_use_id: None,
    }
}

/// Applies `offset` and `limit`.
pub fn page<T>(items: Vec<T>, limit: Option<usize>, offset: usize) -> (r: Vec<T>)
    ensures
        r@ == paged(items@, limit, offset),
{
    let mut all = items;
    let mut rest: Vec<T> = if offset < all.len() {
        all.split_off(offset)
    } else {
        Vec::new()
    };
    proof {
        assert(rest@ =~= if offset < items@.len() {
            items@.skip(offset as int)
        } else {
            Seq::empty()
        });
    }
    match limit {
        Some(n) => {
            if n > 0 && rest.len() > n {
                let ghost were = rest@;
                rest.truncate(n);
                proof {
                    assert(rest@ =~= were.take(n as int));
                }
            }
        },
        None => {},
    }
    rest
}

/// The messages that the visible ones of some entries hold.
fn collect_visible(chain: &Vec<TranscriptEntry>) -> (r: Vec<SessionMessage>)
    ensures
        message_views(r@) == visible_messages(member_lists(chain@)),
{
    let ghost es = member_lists(chain@);
    let ghost keep = |e: Members| is_visible(e);
    let mut out: Vec<SessionMessage> = Vec::new();
    let mut i: usize = 0;
    proof {
        reveal(Seq::filter);
        assert(es.take(0) =~= Seq::<Members>::empty());
        assert(message_views(out@) =~= visible_messages(es.take(0)));
    }
    while i < chain.len()
        invariant
            es == member_lists(chain@),
            keep == (|e: Members| is_visible(e)),
            i <= chain@.len(),
            message_views(out@) == visible_messages(es.take(i as int)),
        decreases chain@.len() - i,
    {
        let ghost were = out@;
        proof {
            reveal(Seq::filter);
            assert(es.take(i as int + 1).drop_last() =~= es.take(i as int));
            assert(es.take(i as int + 1).last() == members(chain@[i as int]));
        }
        if is_visible_message(&chain[i]) {
            let m = to_session_message(&chain[i]);
            out.push(m);
            proof {
                assert(message_views(out@) =~= message_views(were).push(m@));
                assert(es.take(i as int + 1).filter(keep) =~= es.take(i as int).filter(keep).push(
                    members(chain@[i as int]),
                ));
                assert(message_views(out@) =~= visible_messages(es.take(i as int + 1)));
            }
        }
        i = i + 1;
    }
    proof {
        assert(es.take(es.len() as int) =~= es);
    }
    out
}

/// The messages that the conversation entries among some entries hold.
fn collect_conversation(chain: &Vec<TranscriptEntry>) -> (r: Vec<SessionMessage>)
    ensures
        message_views(r@) == conversation_messages(member_lists(chain@)),
{
    let ghost es = member_lists(chain@);
    let ghost keep = |e: Members| is_conversation(e);
    let mut out: Vec<SessionMessage> = Vec::new();
    let mut i: usize = 0;
    proof {
        reveal(Seq::filter);
        assert(es.take(0) =~= Seq::<Members>::empty());
        assert(message_views(out@) =~= conversation_messages(es.take(0)));
    }
    while i < chain.len()
        invariant
            es == member_lists(chain@),
            keep == (|e: Members| is_conversation(e)),
            i <= chain@.len(),
            message_views(out@) == conversation_messages(es.take(i as int)),
        decreases chain@.len() - i,
    {
        let ghost were = out@;
        proof {
            reveal(Seq::filter);
            assert(es.take(i as int + 1).drop_last() =~= es.take(i as int));
            assert(es.take(i as int + 1).last() == members(chain@[i as int]));
        }
        if check_conversation(&chain[i]) {
            let m = to_session_message(&chain[i]);
            out.push(m);
            proof {
                assert(message_views(out@) =~= message_views(were).push(m@));
                assert(es.take(i as int + 1).filter(keep) =~= es.take(i as int).filter(keep).push(
                    members(chain@[i as int]),
                ));
                assert(message_views(out@) =~= conversation_messages(es.take(i as int + 1)));
            }
        }
        i = i + 1;
    }
    proof {
        assert(es.take(es.len() as int) =~= es);
    }
    out
}

/// A page of messages has the messages of the page.
proof fn lemma_page_views(items: Seq<SessionMessage>, limit: Option<usize>, offset: usize)
    ensures
        message_views(paged(items, limit, offset)) == paged(message_views(items), limit, offset),
{
    assert(message_views(paged(items, limit, offset)) =~= paged(
        message_views(items),
        limit,
        offset,
    ));
}

/// Builds the conversation chain from parsed entries and applies paging.
pub fn entries_to_session_messages(
    entries: &Vec<TranscriptEntry>,
    limit: Option<usize>,
    offset: usize,
) -> (r: Vec<SessionMessage>)
    ensures
        message_views(r@) == paged(
            visible_messages(conversation(member_lists(entries@))),
            limit,
            offset,
        ),
        forall|i: int|
            0 <= i < r@.len() ==> crate::sessions::lineage::is_told_in(
                (#[trigger] r@[i])@,
                member_lists(entries@),
                true,
            ),
        limit matches Some(n) && n > 0 ==> r@.len() <= limit->0,
{
    let chain = build_conversation_chain(entries);
    let messages = collect_visible(&chain);
    proof {
        lemma_page_views(messages@, limit, offset);
        crate::sessions::lineage::law_read_messages_are_told(member_lists(entries@));
        let all = visible_messages(conversation(member_lists(entries@)));
        let shown = paged(messages@, limit, offset);
        assert forall|i: int| 0 <= i < shown.len() implies crate::sessions::lineage::is_told_in(
            (#[trigger] shown[i])@,
            member_lists(entries@),
            true,
        ) by {
            assert(message_views(shown)[i] == all[offset + i]);
        }
    }
    page(messages, limit, offset)
}

// ---------------------------------------------------------------------------
// Subagents
// ---------------------------------------------------------------------------

/// The position of the last message of the user or of the assistant.
pub open spec fn last_conversation(es: Seq<Members>) -> Option<int>
    decreases es.len(),
{
    if es.len() == 0 {
        None
    } else if is_conversation(es.last()) {
        Some(es.len() - 1)
    } else {
        last_conversation(es.drop_last())
    }
}

/// The conversation of a subagent: the chain up to its last message.
pub open spec fn subagent_conversation(es: Seq<Members>) -> Seq<Members> {
    match last_conversation(es) {
        Some(leaf) => chain_to(es, leaf),
        None => Seq::empty(),
    }
}

/// Builds the (linear) conversation chain for a subagent transcript.
pub fn build_subagent_chain(entries: &Vec<TranscriptEntry>) -> (r: Vec<TranscriptEntry>)
    ensures
        member_lists(r@) == subagent_conversation(member_lists(entries@)),
{
    let ghost es = member_lists(entries@);
    let mut n: usize = entries.len();
    proof {
        assert(es.take(n as int) =~= es);
    }
    while n > 0
        invariant
            es == member_lists(entries@),
            n <= entries@.len(),
            last_conversation(es) == last_conversation(es.take(n as int)),
        decreases n,
    {
        proof {
            assert(es.take(n as int).last() == members(entries@[n as int - 1]));
            assert(es.take(n as int).drop_last() =~= es.take(n as int - 1));
        }
        if check_conversation(&entries[n - 1]) {
            return collect_chain(entries, n - 1);
        }
        n = n - 1;
    }
    let none: Vec<TranscriptEntry> = Vec::new();
    proof {
        assert(member_lists(none@) =~= Seq::<Members>::empty());
    }
    none
}

/// Builds the conversation of a subagent and applies paging.
pub fn entries_to_subagent_messages(
    entries: &Vec<TranscriptEntry>,
    limit: Option<usize>,
    offset: usize,
) -> (r: Vec<SessionMessage>)
    ensures
        message_views(r@) == paged(
            conversation_messages(subagent_conversation(member_lists(entries@))),
            limit,
            offset,
        ),
        forall|i: int|
            0 <= i < r@.len() ==> crate::sessions::lineage::is_told_in(
                (#[trigger] r@[i])@,
                member_lists(entries@),
                false,
            ),
        limit matches Some(n) && n > 0 ==> r@.len() <= limit->0,
{
    let chain = build_subagent_chain(entries);
    let messages = collect_conversation(&chain);
    proof {
        lemma_page_views(messages@, limit, offset);
        crate::sessions::lineage::law_read_messages_are_told(member_lists(entries@));
        let all = conversation_messages(subagent_conversation(member_lists(entries@)));
        let shown = paged(messages@, limit, offset);
        assert forall|i: int| 0 <= i < shown.len() implies crate::sessions::lineage::is_told_in(
            (#[trigger] shown[i])@,
            member_lists(entries@),
            false,
        ) by {
            assert(message_views(shown)[i] == all[offset + i]);
        }
    }
    page(messages, limit, offset)
}

/// The pages of a list, one after the other, are the list.
pub proof fn law_pages_cover_the_list<T>(items: Seq<T>, limit: usize, offset: usize)
    requires
        limit > 0,
        offset + limit <= usize::MAX,
    ensures
        paged(items, Some(limit), offset) + paged(items, None, (offset + limit) as usize) == paged(
            items,
            None,
            offset,
        ),
        paged(items, None, 0) == items,
        paged(items, Some(0), offset) == paged(items, None, offset),
{
    assert(paged(items, None, 0) =~= items);
    assert(paged(items, Some(limit), offset) + paged(items, None, (offset + limit) as usize)
        =~= paged(items, None, offset));
}

// ---------------------------------------------------------------------------
// What the conversation does not depend on
// ---------------------------------------------------------------------------

/// Whether two entries agree on all fields but `logicalParentUuid`.
pub open spec fn agree_but_logical_parent(a: Members, b: Members) -> bool {
    forall|k: Seq<char>| k != "logicalParentUuid"@ ==> #[trigger] lookup(a, k) == lookup(b, k)
}

/// Whether two transcripts agree, entry by entry, on all fields but
/// `logicalParentUuid`.
pub open spec fn transcripts_agree(a: Seq<Members>, b: Seq<Members>) -> bool {
    &&& a.len() == b.len()
    &&& forall|i: int| 0 <= i < a.len() ==> agree_but_logical_parent(#[trigger] a[i], b[i])
}

/// Entries that agree look the same to a conversation.
proof fn lemma_agreeing_entries(a: Members, b: Members)
    requires
        agree_but_logical_parent(a, b),
    ensures
        uuid_of(a) == uuid_of(b),
        parent_of(a) == parent_of(b),
        is_conversation(a) == is_conversation(b),
        is_aside(a) == is_aside(b),
        message_of(a) == message_of(b),
{
    reveal_strlit("logicalParentUuid");
    reveal_strlit("uuid");
    reveal_strlit("parentUuid");
    reveal_strlit("type");
    reveal_strlit("isSidechain");
    reveal_strlit("teamName");
    reveal_strlit("isMeta");
    reveal_strlit("sessionId");
    reveal_strlit("message");
    assert("logicalParentUuid"@.len() == 17);
    assert("uuid"@.len() == 4 && "parentUuid"@.len() == 10 && "type"@.len() == 4);
    assert("isSidechain"@.len() == 11 && "teamName"@.len() == 8 && "isMeta"@.len() == 6);
    assert("sessionId"@.len() == 9 && "message"@.len() == 7);
    assert(lookup(a, "uuid"@) == lookup(b, "uuid"@));
    assert(lookup(a, "parentUuid"@) == lookup(b, "parentUuid"@));
    assert(lookup(a, "type"@) == lookup(b, "type"@));
    assert(lookup(a, "isSidechain"@) == lookup(b, "isSidechain"@));
    assert(lookup(a, "teamName"@) == lookup(b, "teamName"@));
    assert(lookup(a, "isMeta"@) == lookup(b, "isMeta"@));
    assert(lookup(a, "sessionId"@) == lookup(b, "sessionId"@));
    assert(lookup(a, "message"@) == lookup(b, "message"@));
}

/// Entries are found at the same positions.
proof fn lemma_agreeing_places(a: Seq<Members>, b: Seq<Members>, uuid: Seq<char>)
    requires
        transcripts_agree(a, b),
    ensures
        place_of(a, uuid) == place_of(b, uuid),
    decreases a.len(),
{
    if a.len() > 0 {
        let n = a.len() - 1;
        assert(agree_but_logical_parent(a[n], b[n]));
        lemma_agreeing_entries(a[n], b[n]);
        let p = a.drop_last();
        let q = b.drop_last();
        assert forall|i: int| 0 <= i < p.len() implies agree_but_logical_parent(
            #[trigger] p[i],
            q[i],
        ) by {
            assert(agree_but_logical_parent(a[i], b[i]));
        }
        lemma_agreeing_places(p, q, uuid);
    }
}

/// Parents are followed through the same positions.
proof fn lemma_agreeing_ancestry(
    a: Seq<Members>,
    b: Seq<Members>,
    at: int,
    seen: Seq<Seq<char>>,
)
    requires
        transcripts_agree(a, b),
    ensures
        ancestry(a, at, seen) == ancestry(b, at, seen),
    decreases a.len() - seen.len(),
{
    if 0 <= at < a.len() {
        assert(agree_but_logical_parent(a[at], b[at]));
        lemma_agreeing_entries(a[at], b[at]);
        if seen.len() < a.len() {
            if let Some(p) = parent_of(a[at]) {
                lemma_agreeing_places(a, b, p);
                if let Some(k) = place_of(a, p) {
                    lemma_agreeing_ancestry(a, b, k, seen.push(uuid_of(a[at])));
                }
            }
        }
    }
}

/// The same position holds the first message.
proof fn lemma_agreeing_first(a: Seq<Members>, b: Seq<Members>, up: Seq<int>)
    requires
        transcripts_agree(a, b),
        forall|i: int| 0 <= i < up.len() ==> 0 <= #[trigger] up[i] < a.len(),
    ensures
        first_conversation(a, up) == first_conversation(b, up),
    decreases up.len(),
{
    if up.len() > 0 {
        let k = up[0];
        assert(agree_but_logical_parent(a[k], b[k]));
        lemma_agreeing_entries(a[k], b[k]);
        let rest = up.skip(1);
        assert forall|i: int| 0 <= i < rest.len() implies 0 <= #[trigger] rest[i] < a.len() by {
            assert(rest[i] == up[i + 1]);
        }
        lemma_agreeing_first(a, b, rest);
    }
}

/// The terminal entries lead up to the same messages.
proof fn lemma_agreeing_leaves(a: Seq<Members>, b: Seq<Members>, n: int)
    requires
        transcripts_agree(a, b),
        n <= a.len(),
    ensures
        leaves(a, n) == leaves(b, n),
    decreases n,
{
    if n > 0 {
        lemma_agreeing_leaves(a, b, n - 1);
        assert(agree_but_logical_parent(a[n - 1], b[n - 1]));
        lemma_agreeing_entries(a[n - 1], b[n - 1]);
        let uuid = uuid_of(a[n - 1]);
        assert forall|j: int| 0 <= j < a.len() implies (parent_of(#[trigger] a[j]) != Some(uuid))
            == (parent_of(b[j]) != Some(uuid)) by {
            assert(agree_but_logical_parent(a[j], b[j]));
            lemma_agreeing_entries(a[j], b[j]);
        }
        if is_terminal(a, n - 1) {
            assert forall|j: int| 0 <= j < b.len() implies parent_of(#[trigger] b[j]) != Some(
                uuid_of(b[n - 1]),
            ) by {
                assert(parent_of(a[j]) != Some(uuid));
            }
        }
        if is_terminal(b, n - 1) {
            assert forall|j: int| 0 <= j < a.len() implies parent_of(#[trigger] a[j]) != Some(
                uuid,
            ) by {
                assert(parent_of(b[j]) != Some(uuid_of(b[n - 1])));
            }
        }
        assert(is_terminal(a, n - 1) == is_terminal(b, n - 1));
        lemma_agreeing_ancestry(a, b, n - 1, Seq::empty());
        lemma_ancestry_range(a, n - 1, Seq::empty());
        lemma_agreeing_first(a, b, ancestry(a, n - 1, Seq::empty()));
    }
}

/// The same position is the best.
proof fn lemma_agreeing_best(a: Seq<Members>, b: Seq<Members>, places: Seq<int>)
    requires
        transcripts_agree(a, b),
        forall|i: int| 0 <= i < places.len() ==> 0 <= #[trigger] places[i] < a.len(),
        places.len() > 0,
    ensures
        best(a, places) == best(b, places),
    decreases places.len(),
{
    if places.len() > 1 {
        let init = places.drop_last();
        assert forall|i: int| 0 <= i < init.len() implies 0 <= #[trigger] init[i] < a.len() by {
            assert(init[i] == places[i]);
        }
        lemma_agreeing_best(a, b, init);
        lemma_best(a, init);
        let x = best(a, init);
        let i = choose|i: int| 0 <= i < init.len() && init[i] == x;
        assert(0 <= init[i] < a.len());
        let y = places[places.len() - 1];
        assert(agree_but_logical_parent(a[x], b[x]) && agree_but_logical_parent(a[y], b[y]));
        lemma_agreeing_entries(a[x], b[x]);
        lemma_agreeing_entries(a[y], b[y]);
        lemma_agreeing_places(a, b, uuid_of(a[x]));
        lemma_agreeing_places(a, b, uuid_of(a[y]));
    }
}

/// The same positions hold entries of the main chain.
proof fn lemma_agreeing_main(a: Seq<Members>, b: Seq<Members>, places: Seq<int>)
    requires
        transcripts_agree(a, b),
        forall|i: int| 0 <= i < places.len() ==> 0 <= #[trigger] places[i] < a.len(),
    ensures
        main_only(a, places) == main_only(b, places),
        forall|i: int|
            0 <= i < main_only(a, places).len() ==> 0 <= #[trigger] main_only(a, places)[i]
                < a.len(),
    decreases places.len(),
{
    reveal(Seq::filter);
    if places.len() > 0 {
        let init = places.drop_last();
        assert forall|i: int| 0 <= i < init.len() implies 0 <= #[trigger] init[i] < a.len() by {
            assert(init[i] == places[i]);
        }
        lemma_agreeing_main(a, b, init);
        let k = places[places.len() - 1];
        assert(agree_but_logical_parent(a[k], b[k]));
        lemma_agreeing_entries(a[k], b[k]);
        let before = main_only(a, init);
        let now = main_only(a, places);
        assert forall|i: int| 0 <= i < now.len() implies 0 <= #[trigger] now[i] < a.len() by {
            if i < before.len() {
                assert(now[i] == before[i]);
            }
        }
    }
}

/// Entries that agree hold the same visible messages.
proof fn lemma_agreeing_messages(a: Seq<Members>, b: Seq<Members>)
    requires
        transcripts_agree(a, b),
    ensures
        visible_messages(a) == visible_messages(b),
    decreases a.len(),
{
    reveal(Seq::filter);
    let f = |e: Members| is_visible(e);
    if a.len() > 0 {
        let p = a.drop_last();
        let q = b.drop_last();
        let n = a.len() - 1;
        assert(agree_but_logical_parent(a[n], b[n]));
        lemma_agreeing_entries(a[n], b[n]);
        assert forall|i: int| 0 <= i < p.len() implies agree_but_logical_parent(
            #[trigger] p[i],
            q[i],
        ) by {
            assert(agree_but_logical_parent(a[i], b[i]));
        }
        lemma_agreeing_messages(p, q);
        if is_visible(a[n]) {
            assert(a.filter(f) =~= p.filter(f).push(a[n]));
            assert(b.filter(f) =~= q.filter(f).push(b[n]));
            assert(visible_messages(a) =~= visible_messages(p).push(message_of(a[n])));
            assert(visible_messages(b) =~= visible_messages(q).push(message_of(b[n])));
        } else {
            assert(a.filter(f) =~= p.filter(f));
            assert(b.filter(f) =~= q.filter(f));
        }
    } else {
        assert(a =~= b);
    }
}

/// `logicalParentUuid` is not followed: whether it is added, changed or
/// removed, the conversation goes through the same entries, with the same
/// `uuid`s in the same order, and shows the same messages.
pub proof fn law_logical_parents_are_not_followed(a: Seq<Members>, b: Seq<Members>)
    requires
        transcripts_agree(a, b),
    ensures
        transcripts_agree(conversation(a), conversation(b)),
        forall|i: int|
            0 <= i < conversation(a).len() ==> uuid_of(#[trigger] conversation(a)[i]) == uuid_of(
                conversation(b)[i],
            ),
        visible_messages(conversation(a)) == visible_messages(conversation(b)),
{
    let all = leaves(a, a.len() as int);
    let main = main_only(a, all);
    lemma_agreeing_leaves(a, b, a.len() as int);
    lemma_leaves(a, a.len() as int);
    lemma_agreeing_main(a, b, all);
    if all.len() > 0 {
        lemma_agreeing_best(a, b, all);
        if main.len() > 0 {
            lemma_agreeing_best(a, b, main);
        }
    }
    assert(chain_leaf(a) == chain_leaf(b));
    let p = conversation(a);
    let q = conversation(b);
    if let Some(leaf) = chain_leaf(a) {
        lemma_agreeing_ancestry(a, b, leaf, Seq::empty());
        lemma_ancestry_range(a, leaf, Seq::empty());
        let up = ancestry(a, leaf, Seq::empty());
        assert forall|i: int| 0 <= i < p.len() implies agree_but_logical_parent(
            #[trigger] p[i],
            q[i],
        ) by {
            let k = up[up.len() - 1 - i];
            assert(p[i] == a[k] && q[i] == b[k]);
            assert(agree_but_logical_parent(a[k], b[k]));
        }
    }
    assert(transcripts_agree(p, q));
    assert forall|i: int| 0 <= i < p.len() implies uuid_of(#[trigger] p[i]) == uuid_of(q[i]) by {
        assert(agree_but_logical_parent(p[i], q[i]));
        lemma_agreeing_entries(p[i], q[i]);
    }
    lemma_agreeing_messages(p, q);
}

/// A page begins behind `offset` items and goes on for at most `limit`, in
/// the order of the list. No limit, or one of zero, cuts nothing off.
pub proof fn law_a_page_is_cut_out<T>(items: Seq<T>, limit: Option<usize>, offset: usize, i: int)
    ensures
        ({
            let page = paged(items, limit, offset);
            let left = items.len() - offset;
            &&& left <= 0 ==> page.len() == 0
            &&& left > 0 ==> page.len() == match limit {
                Some(n) => if n > 0 && n < left {
                    n as int
                } else {
                    left
                },
                None => left,
            }
            &&& 0 <= i < page.len() ==> page[i] == items[offset + i]
        }),
{
}

/// A message says what its fields say.
pub proof fn law_message_says_its_fields(m: SessionMessage)
    ensures
        m@.message_type == m.message_type,
        m@.uuid == m.uuid@,
        m@.session_id == m.session_id@,
        m@.message is Some == m.message is Some,
        m.message matches Some(v) ==> m@.message == Some(crate::json::json(v)),
        m@.parent_tool_use_id is Some == m.parent_tool_use_id is Some,
        m.parent_tool_use_id matches Some(t) ==> m@.parent_tool_use_id == Some(t@),
{
}

} // verus!
