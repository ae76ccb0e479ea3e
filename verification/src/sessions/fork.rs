//! Forking a session into a new branch with fresh identifiers.
//!
//! The disk path and the store path share one transform: every message gets
//! a fresh `uuid`, the parent links are kept (past progress entries, which are
//! not written), the origin is stamped as `forkedFrom`, and fields that belong
//! to the old session are dropped.
use serde_json::{Map as JsonMap, Value};
use vstd::prelude::*;

use crate::error::ClaudeError;
use crate::json::{
    array_value, bool_value, distinct_keys, field_is, flag_field, full_text_field, get, get_flag,
    get_full_text, get_list, get_text, is_plain, json, jsons, law_lookup_after_drop,
    law_lookup_after_put, list_field, lookup, member_lists, members, null_value, object_value, put,
    string_value, swap_dropped, text_field, Json, Members,
};
use crate::sessions::jsonl::{
    all_plain, all_read_as, entries_text, holds, lemma_spaced_lines, line_objects,
    parse_object_lines, read_object_line, reads_as, text_of_entries,
};
use crate::sessions::lite::{is_uuid, or_else, validate_uuid};
use crate::sessions::mutations::{
    is_random_uuid, line_of, new_uuid, no_messages_err, no_messages_text, not_found_message,
    not_found_text, require_uuid,
};
use crate::sessions::prompt::{extract_first_prompt_from_head, first_prompt_of};
use crate::sessions::transcript::{
    entry_parent, filter_transcript_entries, parent_of, transcript_only, TranscriptEntry,
};
use crate::text::{
    concat, joined, nonempty_view, split_on, str_view, text_view, text_views, trim, trimmed,
};
use crate::time::is_clock_text;
use crate::unicode::{decode_lossy, lossy_text};

verus! {

broadcast use vstd::string::group_string_axioms;

// ---------------------------------------------------------------------------
// What is kept of a transcript
// ---------------------------------------------------------------------------

/// The entries that are not of a side chain.
pub open spec fn main_entries(ts: Seq<Members>) -> Seq<Members> {
    ts.filter(|e: Members| !flag_field(e, "isSidechain"@))
}

/// The position of the first entry with a `uuid`, or the number of entries
/// where there is none.
pub open spec fn first_named(ts: Seq<Members>, uuid: Seq<char>) -> int
    decreases ts.len(),
{
    if ts.len() == 0 || text_field(ts[0], "uuid"@) == Some(uuid) {
        0
    } else {
        1 + first_named(ts.skip(1), uuid)
    }
}

/// The entries up to and with the first one that has a `uuid`. `None` where
/// none has it.
pub open spec fn cut_at(ts: Seq<Members>, up_to: Option<Seq<char>>) -> Option<Seq<Members>> {
    match up_to {
        Some(uuid) => if first_named(ts, uuid) < ts.len() {
            Some(ts.take(first_named(ts, uuid) + 1))
        } else {
            None
        },
        None => Some(ts),
    }
}

/// Whether an entry is a progress entry: a link of the chain that is not
/// written.
pub open spec fn is_progress(e: Members) -> bool {
    text_field(e, "type"@) == Some("progress"@)
}

/// The position of the last entry with a `uuid`.
pub open spec fn last_named(ts: Seq<Members>, uuid: Seq<char>) -> Option<int>
    decreases ts.len(),
{
    if ts.len() == 0 {
        None
    } else if text_field(ts.last(), "uuid"@) == Some(uuid) {
        Some(ts.len() - 1)
    } else {
        last_named(ts.drop_last(), uuid)
    }
}

/// The position of the last entry that is written.
pub open spec fn last_written(ts: Seq<Members>) -> Option<int>
    decreases ts.len(),
{
    if ts.len() == 0 {
        None
    } else if !is_progress(ts.last()) {
        Some(ts.len() - 1)
    } else {
        last_written(ts.drop_last())
    }
}

// ---------------------------------------------------------------------------
// The forked entries
// ---------------------------------------------------------------------------

/// The identifiers of a fork: of its kept entries one by one, then of the
/// session, of the entry with content replacements and of the title.
pub ghost struct Fresh {
    pub entries: Seq<Seq<char>>,
    pub session_id: Seq<char>,
    pub replacement: Seq<char>,
    pub title: Seq<char>,
}

/// The fresh identifier of the entry with a `uuid`.
pub open spec fn renamed(ts: Seq<Members>, ids: Seq<Seq<char>>, uuid: Seq<char>) -> Option<
    Seq<char>,
> {
    match last_named(ts, uuid) {
        Some(i) => Some(ids[i]),
        None => None,
    }
}

/// The fresh identifier of the nearest entry that is written, from the one
/// with the `uuid` `from` upwards, past at most `steps` entries.
pub open spec fn written_ancestor(
    ts: Seq<Members>,
    ids: Seq<Seq<char>>,
    from: Option<Seq<char>>,
    steps: nat,
) -> Option<Seq<char>>
    decreases steps,
{
    match from {
        Some(uuid) => match last_named(ts, uuid) {
            Some(i) => if steps == 0 {
                None
            } else if !is_progress(ts[i]) {
                Some(ids[i])
            } else {
                written_ancestor(ts, ids, parent_of(ts[i]), (steps - 1) as nat)
            },
            None => None,
        },
        None => None,
    }
}

/// A text as a JSON value, or null.
pub open spec fn text_or_null(s: Option<Seq<char>>) -> Json {
    match s {
        Some(t) => Json::Str(t),
        None => Json::Null,
    }
}

/// The `uuid` of an entry, or the empty text.
pub open spec fn own_uuid(e: Members) -> Seq<char> {
    match text_field(e, "uuid"@) {
        Some(u) => u,
        None => ""@,
    }
}

/// The fresh `uuid` of an entry, or the empty text.
pub open spec fn fresh_uuid(ts: Seq<Members>, ids: Seq<Seq<char>>, e: Members) -> Seq<char> {
    match renamed(ts, ids, own_uuid(e)) {
        Some(u) => u,
        None => ""@,
    }
}

/// What an entry names as its logical parent in a fork: the fresh identifier
/// of an entry of the fork, null for one outside of it, and what was there
/// where that is no identifier.
pub open spec fn fresh_logical_parent(ts: Seq<Members>, ids: Seq<Seq<char>>, e: Members) -> Json {
    match full_text_field(e, "logicalParentUuid"@) {
        Some(lp) => text_or_null(renamed(ts, ids, lp)),
        None => match lookup(e, "logicalParentUuid"@) {
            Some(v) => v,
            None => Json::Null,
        },
    }
}

/// The time of an entry in a fork: its own, but that of the fork for the last
/// entry and where it has none.
pub open spec fn fresh_timestamp(e: Members, last: bool, now: Seq<char>) -> Seq<char> {
    match text_field(e, "timestamp"@) {
        Some(t) => if last {
            now
        } else {
            t
        },
        None => now,
    }
}

/// Where a forked entry comes from.
pub open spec fn origin(session_id: Seq<char>, uuid: Seq<char>) -> Members {
    seq![("sessionId"@, Json::Str(session_id)), ("messageUuid"@, Json::Str(uuid))]
}

/// An entry without the fields that belong to the session it was made in.
pub open spec fn without_session_fields(e: Members) -> Members {
    swap_dropped(
        swap_dropped(swap_dropped(swap_dropped(e, "teamName"@), "agentName"@), "slug"@),
        "sourceToolAssistantUUID"@,
    )
}

/// An entry with the fields that a fork sets.
pub open spec fn with_fork_fields(
    e: Members,
    uuid: Json,
    parent: Json,
    logical_parent: Json,
    session_id: Json,
    timestamp: Json,
    from: Json,
) -> Members {
    put(
        put(
            put(
                put(
                    put(
                        put(put(e, "uuid"@, uuid), "parentUuid"@, parent),
                        "logicalParentUuid"@,
                        logical_parent,
                    ),
                    "sessionId"@,
                    session_id,
                ),
                "timestamp"@,
                timestamp,
            ),
            "isSidechain"@,
            Json::Bool(false),
        ),
        "forkedFrom"@,
        from,
    )
}

/// The entry at position `i` in a fork.
pub open spec fn forked(
    ts: Seq<Members>,
    ids: Seq<Seq<char>>,
    i: int,
    old_id: Seq<char>,
    new_id: Seq<char>,
    now: Seq<char>,
) -> Members {
    let e = ts[i];
    without_session_fields(
        with_fork_fields(
            e,
            Json::Str(fresh_uuid(ts, ids, e)),
            text_or_null(written_ancestor(ts, ids, parent_of(e), ts.len())),
            fresh_logical_parent(ts, ids, e),
            Json::Str(new_id),
            Json::Str(fresh_timestamp(e, last_written(ts) == Some(i), now)),
            Json::Object(origin(old_id, own_uuid(e))),
        ),
    )
}

/// The written ones of the first `n` entries in a fork.
pub open spec fn forked_upto(
    ts: Seq<Members>,
    ids: Seq<Seq<char>>,
    n: int,
    old_id: Seq<char>,
    new_id: Seq<char>,
    now: Seq<char>,
) -> Seq<Members>
    decreases n,
{
    if n <= 0 {
        Seq::empty()
    } else {
        let before = forked_upto(ts, ids, n - 1, old_id, new_id, now);
        if is_progress(ts[n - 1]) {
            before
        } else {
            before.push(forked(ts, ids, n - 1, old_id, new_id, now))
        }
    }
}

/// The entry that carries the content replacements of a session over.
pub open spec fn replacement_members(
    new_id: Seq<char>,
    replacements: Seq<Json>,
    uuid: Seq<char>,
    now: Seq<char>,
) -> Members {
    seq![
        ("type"@, Json::Str("content-replacement"@)),
        ("sessionId"@, Json::Str(new_id)),
        ("replacements"@, Json::Array(replacements)),
        ("uuid"@, Json::Str(uuid)),
        ("timestamp"@, Json::Str(now)),
    ]
}

/// The entry that gives a fork its title.
pub open spec fn fork_title_members(
    new_id: Seq<char>,
    title: Seq<char>,
    uuid: Seq<char>,
    now: Seq<char>,
) -> Members {
    seq![
        ("type"@, Json::Str("custom-title"@)),
        ("sessionId"@, Json::Str(new_id)),
        ("customTitle"@, Json::Str(title)),
        ("uuid"@, Json::Str(uuid)),
        ("timestamp"@, Json::Str(now)),
    ]
}

/// The title of a fork: the given one, or the one of the session marked as a
/// fork.
pub open spec fn fork_title(given: Option<Seq<char>>, derived: Option<Seq<char>>) -> Seq<char> {
    match given_title(given) {
        Some(t) => t,
        None => match derived {
            Some(d) => d + " (fork)"@,
            None => "Forked session"@ + " (fork)"@,
        },
    }
}

/// A title that was given, where it is not blank.
pub open spec fn given_title(given: Option<Seq<char>>) -> Option<Seq<char>> {
    match given {
        Some(t) => nonempty_view(Some(trimmed(t))),
        None => None,
    }
}

/// The text of the error for a message that is not there.
pub open spec fn no_message_text(up_to: Seq<char>, session_id: Seq<char>) -> Seq<char> {
    "Message "@ + up_to + " not found in session "@ + session_id
}

/// What a fork is made of: the kept entries, or the text of the error.
pub open spec fn fork_source(
    transcript: Seq<Members>,
    session_id: Seq<char>,
    up_to: Option<Seq<char>>,
) -> Result<Seq<Members>, Seq<char>> {
    let main = main_entries(transcript);
    if main.len() == 0 {
        Err(no_messages_text(session_id))
    } else {
        match cut_at(main, up_to) {
            Some(kept) => if last_written(kept) is Some {
                Ok(kept)
            } else {
                Err(no_messages_text(session_id))
            },
            None => Err(no_message_text(up_to->0, session_id)),
        }
    }
}

/// The entries of a fork.
pub open spec fn fork_entries(
    kept: Seq<Members>,
    replacements: Seq<Json>,
    session_id: Seq<char>,
    title: Seq<char>,
    fresh: Fresh,
    now: Seq<char>,
) -> Seq<Members> {
    let written = forked_upto(
        kept,
        fresh.entries,
        kept.len() as int,
        session_id,
        fresh.session_id,
        now,
    );
    let carried = if replacements.len() > 0 {
        written.push(replacement_members(fresh.session_id, replacements, fresh.replacement, now))
    } else {
        written
    };
    carried.push(fork_title_members(fresh.session_id, title, fresh.title, now))
}

// ---------------------------------------------------------------------------
// Making a fork
// ---------------------------------------------------------------------------

/// The identifiers of a fork.
#[derive(Debug)]
pub struct ForkIds {
    /// One for each kept entry, and possibly more.
    pub entries: Vec<String>,
    /// Of the new session.
    pub session_id: String,
    /// Of the entry with content replacements.
    pub replacement: String,
    /// Of the entry with the title.
    pub title: String,
}

impl View for ForkIds {
    type V = Fresh;

    open spec fn view(&self) -> Fresh {
        Fresh {
            entries: text_views(self.entries@),
            session_id: self.session_id@,
            replacement: self.replacement@,
            title: self.title@,
        }
    }
}

/// The entries that a fork keeps.
pub fn fork_kept(
    transcript: &Vec<TranscriptEntry>,
    session_id: &str,
    up_to: Option<&str>,
) -> (r: Result<Vec<TranscriptEntry>, ClaudeError>)
    ensures
        match r {
            Ok(kept) => fork_source(member_lists(transcript@), session_id@, str_view(up_to)) == Ok::<
                Seq<Members>,
                Seq<char>,
            >(member_lists(kept@)) && kept@.len() <= transcript@.len(),
            Err(e) => fork_source(
                member_lists(transcript@),
                session_id@,
                str_view(up_to),
            ) matches Err(text) && e.is_invalid_config(text),
        },
{
    let ghost all = member_lists(transcript@);
    let ghost keep = |e: Members| !flag_field(e, "isSidechain"@);
    let mut kept: Vec<TranscriptEntry> = Vec::new();
    let mut i: usize = 0;
    proof {
        reveal(Seq::filter);
        assert(all.take(0) =~= Seq::<Members>::empty());
        assert(member_lists(kept@) =~= all.take(0).filter(keep));
    }
    while i < transcript.len()
        invariant
            all == member_lists(transcript@),
            keep == (|e: Members| !flag_field(e, "isSidechain"@)),
            i <= transcript@.len(),
            kept@.len() <= i,
            member_lists(kept@) == all.take(i as int).filter(keep),
        decreases transcript@.len() - i,
    {
        let ghost were = kept@;
        proof {
            reveal(Seq::filter);
            assert(all.take(i as int + 1).drop_last() =~= all.take(i as int));
            assert(all.take(i as int + 1).last() == members(transcript@[i as int]));
        }
        if !get_flag(&transcript[i], "isSidechain") {
            let e = transcript[i].clone();
            kept.push(e);
            proof {
                assert(member_lists(kept@) =~= member_lists(were).push(members(e)));
            }
        }
        i = i + 1;
    }
    proof {
        assert(all.take(all.len() as int) =~= all);
    }
    let ghost main = main_entries(all);
    if kept.len() == 0 {
        return Err(no_messages_err(session_id));
    }
    match up_to {
        Some(up) => {
            let n: usize = find_first(&kept, up);
            if n >= kept.len() {
                let mut text = crate::text::concat3("Message ", up, " not found in session ");
                crate::text::push_text(&mut text, session_id);
                return Err(ClaudeError::InvalidConfig(text));
            }
            let ghost were = kept@;
            kept.truncate(n + 1);
            proof {
                assert(member_lists(kept@) =~= main.take(n + 1));
            }
        },
        None => {},
    }
    match find_last_written(&kept) {
        Some(_) => Ok(kept),
        None => Err(no_messages_err(session_id)),
    }
}

/// The position of the first entry with a `uuid`.
fn find_first(entries: &Vec<TranscriptEntry>, uuid: &str) -> (r: usize)
    ensures
        r == first_named(member_lists(entries@), uuid@),
        r <= entries@.len(),
{
    let ghost ts = member_lists(entries@);
    let mut i: usize = 0;
    proof {
        assert(ts.skip(0) =~= ts);
    }
    while i < entries.len()
        invariant
            ts == member_lists(entries@),
            i <= entries@.len(),
            first_named(ts, uuid@) == i + first_named(ts.skip(i as int), uuid@),
        decreases entries@.len() - i,
    {
        proof {
            assert(ts.skip(i as int)[0] == members(entries@[i as int]));
            assert(ts.skip(i as int).skip(1) =~= ts.skip(i as int + 1));
        }
        if field_is(&entries[i], "uuid", uuid) {
            return i;
        }
        i = i + 1;
    }
    i
}

/// The position of the last entry with a `uuid`.
fn find_last(entries: &Vec<TranscriptEntry>, uuid: &str) -> (r: Option<usize>)
    ensures
        match r {
            Some(k) => last_named(member_lists(entries@), uuid@) == Some(k as int) && k
                < entries@.len(),
            None => last_named(member_lists(entries@), uuid@) is None,
        },
{
    let ghost ts = member_lists(entries@);
    let mut n: usize = entries.len();
    proof {
        assert(ts.take(n as int) =~= ts);
    }
    while n > 0
        invariant
            ts == member_lists(entries@),
            n <= entries@.len(),
            last_named(ts, uuid@) == last_named(ts.take(n as int), uuid@),
        decreases n,
    {
        proof {
            assert(ts.take(n as int).last() == members(entries@[n as int - 1]));
            assert(ts.take(n as int).drop_last() =~= ts.take(n as int - 1));
        }
        if field_is(&entries[n - 1], "uuid", uuid) {
            return Some(n - 1);
        }
        n = n - 1;
    }
    None
}

/// The position of the last entry that is written.
fn find_last_written(entries: &Vec<TranscriptEntry>) -> (r: Option<usize>)
    ensures
        match r {
            Some(k) => last_written(member_lists(entries@)) == Some(k as int),
            None => last_written(member_lists(entries@)) is None,
        },
{
    let ghost ts = member_lists(entries@);
    let mut n: usize = entries.len();
    proof {
        assert(ts.take(n as int) =~= ts);
    }
    while n > 0
        invariant
            ts == member_lists(entries@),
            n <= entries@.len(),
            last_written(ts) == last_written(ts.take(n as int)),
        decreases n,
    {
        proof {
            assert(ts.take(n as int).last() == members(entries@[n as int - 1]));
            assert(ts.take(n as int).drop_last() =~= ts.take(n as int - 1));
        }
        if !field_is(&entries[n - 1], "type", "progress") {
            return Some(n - 1);
        }
        n = n - 1;
    }
    None
}

/// The fresh identifier of the entry with a `uuid`.
fn rename(entries: &Vec<TranscriptEntry>, ids: &Vec<String>, uuid: &str) -> (r: Option<String>)
    requires
        entries@.len() <= ids@.len(),
    ensures
        text_view(r) == renamed(member_lists(entries@), text_views(ids@), uuid@),
{
    match find_last(entries, uuid) {
        Some(i) => Some(ids[i].clone()),
        None => None,
    }
}

/// The fresh identifier of the nearest entry that is written, from the parent
/// of an entry upwards.
///
/// A loop of progress entries has none.
fn find_written_ancestor(
    entries: &Vec<TranscriptEntry>,
    ids: &Vec<String>,
    entry: &TranscriptEntry,
) -> (r: Option<String>)
    requires
        entries@.len() <= ids@.len(),
    ensures
        text_view(r) == written_ancestor(
            member_lists(entries@),
            text_views(ids@),
            parent_of(members(*entry)),
            entries@.len(),
        ),
{
    let ghost ts = member_lists(entries@);
    let ghost all = text_views(ids@);
    let mut from: Option<&str> = entry_parent(entry);
    let mut left: usize = entries.len();
    loop
        invariant
            ts == member_lists(entries@),
            all == text_views(ids@),
            entries@.len() <= ids@.len(),
            written_ancestor(ts, all, parent_of(members(*entry)), entries@.len())
                == written_ancestor(ts, all, str_view(from), left as nat),
        decreases left,
    {
        let uuid: &str = match from {
            Some(u) => u,
            None => return None,
        };
        let i: usize = match find_last(entries, uuid) {
            Some(k) => k,
            None => return None,
        };
        if left == 0 {
            return None;
        }
        proof {
            assert(ts[i as int] == members(entries@[i as int]));
            assert(all[i as int] == ids@[i as int]@);
        }
        if !field_is(&entries[i], "type", "progress") {
            return Some(ids[i].clone());
        }
        from = entry_parent(&entries[i]);
        left = left - 1;
    }
}

/// A text as a JSON value, or null.
fn text_or_null_value(s: Option<String>) -> (r: Value)
    ensures
        json(r) == text_or_null(text_view(s)),
{
    match s {
        Some(t) => string_value(t),
        None => null_value(),
    }
}

/// What an entry names as its logical parent in a fork.
fn logical_parent_value(
    entries: &Vec<TranscriptEntry>,
    ids: &Vec<String>,
    entry: &TranscriptEntry,
) -> (r: Value)
    requires
        entries@.len() <= ids@.len(),
    ensures
        json(r) == fresh_logical_parent(
            member_lists(entries@),
            text_views(ids@),
            members(*entry),
        ),
{
    match get_full_text(entry, "logicalParentUuid") {
        Some(lp) => text_or_null_value(rename(entries, ids, lp)),
        None => match get(entry, "logicalParentUuid") {
            Some(v) => v.clone(),
            None => null_value(),
        },
    }
}

/// Where a forked entry comes from.
fn origin_value(session_id: &str, uuid: &str) -> (r: Value)
    ensures
        json(r) == Json::Object(origin(session_id@, uuid@)),
{
    let mut m = JsonMap::new();
    let _ = m.insert("sessionId".to_owned(), string_value(session_id.to_owned()));
    proof {
        assert(members(m) =~= seq![("sessionId"@, Json::Str(session_id@))]);
        reveal_strlit("sessionId");
        reveal_strlit("messageUuid");
        assert("sessionId"@[0] == 's');
        assert("messageUuid"@[0] == 'm');
        crate::json::lemma_key_index(members(m), "messageUuid"@);
    }
    let _ = m.insert("messageUuid".to_owned(), string_value(uuid.to_owned()));
    proof {
        assert(members(m) =~= origin(session_id@, uuid@));
    }
    object_value(m)
}

/// The entry at position `i` in a fork.
fn fork_entry(
    entries: &Vec<TranscriptEntry>,
    ids: &Vec<String>,
    i: usize,
    last: bool,
    old_id: &str,
    new_id: &str,
    now: &str,
) -> (r: TranscriptEntry)
    requires
        i < entries@.len() <= ids@.len(),
        last == (last_written(member_lists(entries@)) == Some(i as int)),
    ensures
        members(r) == forked(
            member_lists(entries@),
            text_views(ids@),
            i as int,
            old_id@,
            new_id@,
            now@,
        ),
{
    let entry = &entries[i];
    proof {
        assert(member_lists(entries@)[i as int] == members(*entry));
    }
    let own: &str = match get_text(entry, "uuid") {
        Some(u) => u,
        None => "",
    };
    let uuid: String = match rename(entries, ids, own) {
        Some(u) => u,
        None => "".to_owned(),
    };
    let parent = find_written_ancestor(entries, ids, entry);
    let timestamp: String = match get_text(entry, "timestamp") {
        Some(t) => if last {
            now.to_owned()
        } else {
            t.to_owned()
        },
        None => now.to_owned(),
    };
    let logical = logical_parent_value(entries, ids, entry);
    let mut m = entry.clone();
    let _ = m.insert("uuid".to_owned(), string_value(uuid));
    let _ = m.insert("parentUuid".to_owned(), text_or_null_value(parent));
    let _ = m.insert("logicalParentUuid".to_owned(), logical);
    let _ = m.insert("sessionId".to_owned(), string_value(new_id.to_owned()));
    let _ = m.insert("timestamp".to_owned(), string_value(timestamp));
    let _ = m.insert("isSidechain".to_owned(), bool_value(false));
    let _ = m.insert("forkedFrom".to_owned(), origin_value(old_id, own));
    let _ = crate::json::remove(&mut m, "teamName");
    let _ = crate::json::remove(&mut m, "agentName");
    let _ = crate::json::remove(&mut m, "slug");
    let _ = crate::json::remove(&mut m, "sourceToolAssistantUUID");
    m
}

/// Puts one more value behind all members, under a new key.
fn push_member(m: &mut JsonMap<String, Value>, k: &str, v: Value)
    requires
        forall|i: int|
            0 <= i < members(*old(m)).len() ==> (#[trigger] members(*old(m))[i]).0 != k@,
    ensures
        members(*final(m)) == members(*old(m)).push((k@, json(v))),
{
    proof {
        crate::json::lemma_key_index(members(*m), k@);
    }
    let _ = m.insert(k.to_owned(), v);
}

/// The entry that carries the content replacements of a session over.
fn replacement_entry(new_id: &str, replacements: Vec<Value>, uuid: &str, now: &str) -> (r:
    TranscriptEntry)
    ensures
        members(r) == replacement_members(new_id@, jsons(replacements@), uuid@, now@),
{
    proof {
        lemma_fork_keys();
    }
    let mut m = JsonMap::new();
    push_member(&mut m, "type", string_value("content-replacement".to_owned()));
    push_member(&mut m, "sessionId", string_value(new_id.to_owned()));
    push_member(&mut m, "replacements", array_value(replacements));
    push_member(&mut m, "uuid", string_value(uuid.to_owned()));
    push_member(&mut m, "timestamp", string_value(now.to_owned()));
    proof {
        assert(members(m) =~= replacement_members(new_id@, jsons(replacements@), uuid@, now@));
    }
    m
}

/// The entry that gives a fork its title.
fn fork_title_entry(new_id: &str, title: &str, uuid: &str, now: &str) -> (r: TranscriptEntry)
    ensures
        members(r) == fork_title_members(new_id@, title@, uuid@, now@),
{
    proof {
        lemma_fork_keys();
    }
    let mut m = JsonMap::new();
    push_member(&mut m, "type", string_value("custom-title".to_owned()));
    push_member(&mut m, "sessionId", string_value(new_id.to_owned()));
    push_member(&mut m, "customTitle", string_value(title.to_owned()));
    push_member(&mut m, "uuid", string_value(uuid.to_owned()));
    push_member(&mut m, "timestamp", string_value(now.to_owned()));
    proof {
        assert(members(m) =~= fork_title_members(new_id@, title@, uuid@, now@));
    }
    m
}

/// The keys of the entries that a fork writes are different texts.
pub proof fn lemma_fork_keys()
    ensures
        "type"@ != "sessionId"@,
        "type"@ != "replacements"@,
        "type"@ != "customTitle"@,
        "type"@ != "uuid"@,
        "type"@ != "timestamp"@,
        "sessionId"@ != "replacements"@,
        "sessionId"@ != "customTitle"@,
        "sessionId"@ != "uuid"@,
        "sessionId"@ != "timestamp"@,
        "replacements"@ != "uuid"@,
        "replacements"@ != "timestamp"@,
        "customTitle"@ != "uuid"@,
        "customTitle"@ != "timestamp"@,
        "uuid"@ != "timestamp"@,
{
    reveal_strlit("type");
    reveal_strlit("sessionId");
    reveal_strlit("replacements");
    reveal_strlit("customTitle");
    reveal_strlit("uuid");
    reveal_strlit("timestamp");
    assert("type"@.len() == 4);
    assert("timestamp"@.len() == 9);
    assert("type"@[0] == 't');
    assert("sessionId"@[0] == 's');
    assert("replacements"@[0] == 'r');
    assert("customTitle"@[0] == 'c');
    assert("uuid"@[0] == 'u');
    assert("timestamp"@[0] == 't');
}

/// A title that was given, where it is not blank.
fn read_given_title(title: Option<&str>) -> (r: Option<String>)
    ensures
        text_view(r) == given_title(str_view(title)),
{
    match title {
        Some(t) => crate::text::nonempty(Some(trim(t))),
        None => None,
    }
}

/// The title of a fork: the given one, or `derived` marked as a fork.
pub fn choose_fork_title(title: Option<&str>, derived: Option<&str>) -> (r: String)
    ensures
        r@ == fork_title(str_view(title), str_view(derived)),
{
    match read_given_title(title) {
        Some(t) => t,
        None => match derived {
            Some(d) => concat(d, " (fork)"),
            None => concat("Forked session", " (fork)"),
        },
    }
}

/// The entries of a fork: the kept entries with fresh identifiers, the content
/// replacements if there are any, and the title.
pub fn build_fork_entries(
    kept: &Vec<TranscriptEntry>,
    content_replacements: &Vec<Value>,
    session_id: &str,
    title: &str,
    ids: &ForkIds,
    now: &str,
) -> (r: Vec<TranscriptEntry>)
    requires
        kept@.len() <= ids.entries@.len(),
    ensures
        member_lists(r@) == fork_entries(
            member_lists(kept@),
            jsons(content_replacements@),
            session_id@,
            title@,
            ids@,
            now@,
        ),
{
    let ghost ts = member_lists(kept@);
    let ghost fresh = text_views(ids.entries@);
    let last = find_last_written(kept);
    let mut out: Vec<TranscriptEntry> = Vec::new();
    let mut i: usize = 0;
    proof {
        assert(member_lists(out@) =~= forked_upto(
            ts,
            fresh,
            0,
            session_id@,
            ids.session_id@,
            now@,
        ));
    }
    while i < kept.len()
        invariant
            ts == member_lists(kept@),
            fresh == text_views(ids.entries@),
            kept@.len() <= ids.entries@.len(),
            match last {
                Some(k) => last_written(ts) == Some(k as int),
                None => last_written(ts) is None,
            },
            i <= kept@.len(),
            member_lists(out@) == forked_upto(
                ts,
                fresh,
                i as int,
                session_id@,
                ids.session_id@,
                now@,
            ),
        decreases kept@.len() - i,
    {
        let ghost were = out@;
        proof {
            assert(ts[i as int] == members(kept@[i as int]));
        }
        if !field_is(&kept[i], "type", "progress") {
            let is_last: bool = match last {
                Some(k) => k == i,
                None => false,
            };
            let e = fork_entry(kept, &ids.entries, i, is_last, session_id, &ids.session_id, now);
            out.push(e);
            proof {
                assert(member_lists(out@) =~= member_lists(were).push(members(e)));
            }
        }
        i = i + 1;
    }
    if content_replacements.len() > 0 {
        let ghost were = out@;
        let e = replacement_entry(
            &ids.session_id,
            copy_values(content_replacements),
            &ids.replacement,
            now,
        );
        out.push(e);
        proof {
            assert(member_lists(out@) =~= member_lists(were).push(members(e)));
        }
    }
    let ghost were = out@;
    let e = fork_title_entry(&ids.session_id, title, &ids.title, now);
    out.push(e);
    proof {
        assert(member_lists(out@) =~= member_lists(were).push(members(e)));
    }
    out
}

/// A copy of a list of values.
fn copy_values(values: &Vec<Value>) -> (r: Vec<Value>)
    ensures
        jsons(r@) == jsons(values@),
{
    let mut out: Vec<Value> = Vec::new();
    let mut i: usize = 0;
    while i < values.len()
        invariant
            i <= values@.len(),
            out@.len() == i,
            forall|j: int| 0 <= j < i ==> json(#[trigger] out@[j]) == json(values@[j]),
        decreases values@.len() - i,
    {
        out.push(values[i].clone());
        i = i + 1;
    }
    proof {
        assert(jsons(out@) =~= jsons(values@));
    }
    out
}

/// The lines of entries.
pub open spec fn entry_lines(es: Seq<Members>) -> Seq<Seq<char>> {
    Seq::new(es.len(), |i: int| line_of(Json::Object(es[i])))
}

/// The lines of entries.
///
/// They are read back as the same entries where those are plain.
pub fn lines_of_entries(entries: &Vec<TranscriptEntry>) -> (r: Vec<String>)
    ensures
        text_views(r@) == entry_lines(member_lists(entries@)),
        all_plain(member_lists(entries@)) ==> line_objects(text_views(r@)) == member_lists(
            entries@,
        ) && all_read_as(text_views(r@), member_lists(entries@)),
{
    let mut out: Vec<String> = Vec::new();
    let mut i: usize = 0;
    let ghost es = member_lists(entries@);
    let ghost all = entry_lines(es);
    proof {
        assert(text_views(out@) =~= all.take(0));
        assert(line_objects(text_views(out@)) =~= es.take(0));
    }
    while i < entries.len()
        invariant
            es == member_lists(entries@),
            all == entry_lines(es),
            i <= entries@.len(),
            text_views(out@) == all.take(i as int),
            all_plain(es) ==> line_objects(text_views(out@)) == es.take(i as int),
            all_plain(es) ==> all_read_as(text_views(out@), es.take(i as int)),
        decreases entries@.len() - i,
    {
        let ghost were = out@;
        let ghost m = members(entries@[i as int]);
        let mut line = crate::json::print(&object_value(entries[i].clone()));
        let ghost p = line@;
        line.push('\n');
        out.push(line);
        proof {
            assert(text_views(out@) =~= text_views(were).push(line@));
            assert(line@ == all[i as int]);
            assert(text_views(out@) =~= all.take(i as int + 1));
            assert(text_views(out@).drop_last() =~= text_views(were));
            if all_plain(es) {
                assert(is_plain(Json::Object(es[i as int]), 100));
                crate::json::lemma_object_in_braces(m);
                lemma_line_trimmed(p);
                assert(es.take(i as int).push(m) =~= es.take(i as int + 1));
                assert(line@.drop_last() =~= p);
                assert forall|k: int| 0 <= k < out@.len() implies reads_as(
                    #[trigger] text_views(out@)[k],
                    es.take(i as int + 1)[k],
                ) by {
                    if k < i {
                        assert(reads_as(text_views(were)[k], es.take(i as int)[k]));
                    }
                }
            }
        }
        i = i + 1;
    }
    proof {
        assert(all.take(all.len() as int) =~= all);
        assert(es.take(es.len() as int) =~= es);
    }
    out
}

/// A text in braces on a line of its own is the line without white space at
/// its ends.
proof fn lemma_line_trimmed(p: Seq<char>)
    requires
        p.len() >= 2,
        p[0] == '{',
        p.last() == '}',
    ensures
        trimmed(p.push('\n')) == p,
{
    let s = p.push('\n');
    assert(s[0] == p[0]);
    assert(s.drop_last() =~= p);
    reveal_with_fuel(crate::text::trimmed_end, 3);
}

/// The core of a fork: fresh identifiers in, serialized JSONL lines out.
///
/// Shared by the file and the store path. `derived_title` is the title of the
/// session that is forked; it counts only where no `title` is given.
pub fn build_fork_lines(
    transcript: &Vec<TranscriptEntry>,
    content_replacements: &Vec<Value>,
    session_id: &str,
    up_to_message_id: Option<&str>,
    title: Option<&str>,
    derived_title: Option<&str>,
    ids: &ForkIds,
    now: &str,
) -> (r: Result<(String, Vec<String>), ClaudeError>)
    requires
        transcript@.len() <= ids.entries@.len(),
    ensures
        match fork_source(member_lists(transcript@), session_id@, str_view(up_to_message_id)) {
            Ok(kept) => r matches Ok((id, lines)) && id@ == ids.session_id@ && ({
                let made = fork_entries(
                    kept,
                    jsons(content_replacements@),
                    session_id@,
                    fork_title(str_view(title), str_view(derived_title)),
                    ids@,
                    now@,
                );
                &&& text_views(lines@) == entry_lines(made)
                &&& all_plain(made) ==> all_read_as(text_views(lines@), made)
            }),
            Err(text) => r matches Err(e) && e.is_invalid_config(text),
        },
{
    let kept = match fork_kept(transcript, session_id, up_to_message_id) {
        Ok(k) => k,
        Err(e) => return Err(e),
    };
    let name = choose_fork_title(title, derived_title);
    let entries = build_fork_entries(&kept, content_replacements, session_id, &name, ids, now);
    Ok((ids.session_id.clone(), lines_of_entries(&entries)))
}

// ---------------------------------------------------------------------------
// What a fork keeps and changes
// ---------------------------------------------------------------------------

/// The keys that a fork sets.
pub open spec fn is_fork_key(k: Seq<char>) -> bool {
    k == "uuid"@ || k == "parentUuid"@ || k == "logicalParentUuid"@ || k == "sessionId"@ || k
        == "timestamp"@ || k == "isSidechain"@ || k == "forkedFrom"@
}

/// The keys that a fork drops.
pub open spec fn is_session_key(k: Seq<char>) -> bool {
    k == "teamName"@ || k == "agentName"@ || k == "slug"@ || k == "sourceToolAssistantUUID"@
}

/// The keys that a fork sets and drops are different texts.
proof fn lemma_fork_field_names()
    ensures
        "uuid"@ != "parentUuid"@,
        "uuid"@ != "logicalParentUuid"@,
        "uuid"@ != "sessionId"@,
        "uuid"@ != "timestamp"@,
        "uuid"@ != "isSidechain"@,
        "uuid"@ != "forkedFrom"@,
        "parentUuid"@ != "logicalParentUuid"@,
        "parentUuid"@ != "sessionId"@,
        "parentUuid"@ != "timestamp"@,
        "parentUuid"@ != "isSidechain"@,
        "parentUuid"@ != "forkedFrom"@,
        "logicalParentUuid"@ != "sessionId"@,
        "logicalParentUuid"@ != "timestamp"@,
        "logicalParentUuid"@ != "isSidechain"@,
        "logicalParentUuid"@ != "forkedFrom"@,
        "sessionId"@ != "timestamp"@,
        "sessionId"@ != "isSidechain"@,
        "sessionId"@ != "forkedFrom"@,
        "timestamp"@ != "isSidechain"@,
        "timestamp"@ != "forkedFrom"@,
        "isSidechain"@ != "forkedFrom"@,
        forall|a: Seq<char>, b: Seq<char>|
            #![trigger is_fork_key(a), is_session_key(b)]
            is_fork_key(a) && is_session_key(b) ==> a != b,
        "teamName"@ != "agentName"@,
        "teamName"@ != "slug"@,
        "teamName"@ != "sourceToolAssistantUUID"@,
        "agentName"@ != "slug"@,
        "agentName"@ != "sourceToolAssistantUUID"@,
        "slug"@ != "sourceToolAssistantUUID"@,
{
    reveal_strlit("uuid");
    reveal_strlit("parentUuid");
    reveal_strlit("logicalParentUuid");
    reveal_strlit("sessionId");
    reveal_strlit("timestamp");
    reveal_strlit("isSidechain");
    reveal_strlit("forkedFrom");
    reveal_strlit("teamName");
    reveal_strlit("agentName");
    reveal_strlit("slug");
    reveal_strlit("sourceToolAssistantUUID");
    assert("uuid"@[0] == 'u');
    assert("parentUuid"@[0] == 'p');
    assert("logicalParentUuid"@[0] == 'l');
    assert("sessionId"@[0] == 's' && "sessionId"@[1] == 'e');
    assert("timestamp"@[0] == 't' && "timestamp"@[1] == 'i');
    assert("isSidechain"@[0] == 'i');
    assert("forkedFrom"@[0] == 'f');
    assert("teamName"@[0] == 't' && "teamName"@[1] == 'e');
    assert("agentName"@[0] == 'a');
    assert("slug"@[0] == 's' && "slug"@[1] == 'l');
    assert("sourceToolAssistantUUID"@[0] == 's' && "sourceToolAssistantUUID"@[1] == 'o');
}

/// What the fields that a fork sets hold after they are set.
proof fn lemma_with_fork_fields(
    e: Members,
    a: Json,
    b: Json,
    c: Json,
    d: Json,
    f: Json,
    g: Json,
    k: Seq<char>,
)
    requires
        distinct_keys(e),
    ensures
        ({
            let m = with_fork_fields(e, a, b, c, d, f, g);
            &&& distinct_keys(m)
            &&& lookup(m, k) == if k == "uuid"@ {
                Some(a)
            } else if k == "parentUuid"@ {
                Some(b)
            } else if k == "logicalParentUuid"@ {
                Some(c)
            } else if k == "sessionId"@ {
                Some(d)
            } else if k == "timestamp"@ {
                Some(f)
            } else if k == "isSidechain"@ {
                Some(Json::Bool(false))
            } else if k == "forkedFrom"@ {
                Some(g)
            } else {
                lookup(e, k)
            }
        }),
{
    lemma_fork_field_names();
    let m1 = put(e, "uuid"@, a);
    law_lookup_after_put(e, "uuid"@, a, k);
    let m2 = put(m1, "parentUuid"@, b);
    law_lookup_after_put(m1, "parentUuid"@, b, k);
    let m3 = put(m2, "logicalParentUuid"@, c);
    law_lookup_after_put(m2, "logicalParentUuid"@, c, k);
    let m4 = put(m3, "sessionId"@, d);
    law_lookup_after_put(m3, "sessionId"@, d, k);
    let m5 = put(m4, "timestamp"@, f);
    law_lookup_after_put(m4, "timestamp"@, f, k);
    let m6 = put(m5, "isSidechain"@, Json::Bool(false));
    law_lookup_after_put(m5, "isSidechain"@, Json::Bool(false), k);
    law_lookup_after_put(m6, "forkedFrom"@, g, k);
}

/// What is found after the fields of the old session were dropped.
proof fn lemma_without_session_fields(m: Members, k: Seq<char>)
    requires
        distinct_keys(m),
    ensures
        distinct_keys(without_session_fields(m)),
        lookup(without_session_fields(m), k) == if is_session_key(k) {
            None
        } else {
            lookup(m, k)
        },
{
    lemma_fork_field_names();
    let m1 = swap_dropped(m, "teamName"@);
    law_lookup_after_drop(m, "teamName"@, k);
    let m2 = swap_dropped(m1, "agentName"@);
    law_lookup_after_drop(m1, "agentName"@, k);
    let m3 = swap_dropped(m2, "slug"@);
    law_lookup_after_drop(m2, "slug"@, k);
    law_lookup_after_drop(m3, "sourceToolAssistantUUID"@, k);
}

/// A forked entry has the new session identifier and its fresh `uuid`, names
/// the nearest written ancestor as its parent and the entry it was made from
/// as its origin, is of no side chain, and has none of the fields of the old
/// session. It keeps its time, but the last entry, and one without a time, get
/// that of the fork. All other fields are as they were.
pub proof fn law_forked_fields(
    ts: Seq<Members>,
    ids: Seq<Seq<char>>,
    i: int,
    old_id: Seq<char>,
    new_id: Seq<char>,
    now: Seq<char>,
    k: Seq<char>,
)
    requires
        0 <= i < ts.len(),
        distinct_keys(ts[i]),
    ensures
        ({
            let m = forked(ts, ids, i, old_id, new_id, now);
            &&& text_field(m, "sessionId"@) == Some(new_id)
            &&& text_field(m, "uuid"@) == Some(fresh_uuid(ts, ids, ts[i]))
            &&& lookup(m, "parentUuid"@) == Some(
                text_or_null(written_ancestor(ts, ids, parent_of(ts[i]), ts.len())),
            )
            &&& lookup(m, "logicalParentUuid"@) == Some(fresh_logical_parent(ts, ids, ts[i]))
            &&& text_field(m, "timestamp"@) == Some(
                fresh_timestamp(ts[i], last_written(ts) == Some(i), now),
            )
            &&& !flag_field(m, "isSidechain"@)
            &&& lookup(m, "forkedFrom"@) == Some(Json::Object(origin(old_id, own_uuid(ts[i]))))
            &&& is_session_key(k) ==> lookup(m, k) is None
            &&& !is_session_key(k) && !is_fork_key(k) ==> lookup(m, k) == lookup(ts[i], k)
            &&& distinct_keys(m)
        }),
{
    let e = ts[i];
    let a = Json::Str(fresh_uuid(ts, ids, e));
    let b = text_or_null(written_ancestor(ts, ids, parent_of(e), ts.len()));
    let c = fresh_logical_parent(ts, ids, e);
    let d = Json::Str(new_id);
    let f = Json::Str(fresh_timestamp(e, last_written(ts) == Some(i), now));
    let g = Json::Object(origin(old_id, own_uuid(e)));
    let w = with_fork_fields(e, a, b, c, d, f, g);
    lemma_fork_field_names();
    lemma_with_fork_fields(e, a, b, c, d, f, g, "sessionId"@);
    lemma_with_fork_fields(e, a, b, c, d, f, g, "uuid"@);
    lemma_with_fork_fields(e, a, b, c, d, f, g, "parentUuid"@);
    lemma_with_fork_fields(e, a, b, c, d, f, g, "logicalParentUuid"@);
    lemma_with_fork_fields(e, a, b, c, d, f, g, "isSidechain"@);
    lemma_with_fork_fields(e, a, b, c, d, f, g, "timestamp"@);
    lemma_with_fork_fields(e, a, b, c, d, f, g, "forkedFrom"@);
    lemma_with_fork_fields(e, a, b, c, d, f, g, k);
    lemma_without_session_fields(w, "sessionId"@);
    lemma_without_session_fields(w, "uuid"@);
    lemma_without_session_fields(w, "parentUuid"@);
    lemma_without_session_fields(w, "logicalParentUuid"@);
    lemma_without_session_fields(w, "isSidechain"@);
    lemma_without_session_fields(w, "timestamp"@);
    lemma_without_session_fields(w, "forkedFrom"@);
    lemma_without_session_fields(w, k);
    assert(is_fork_key("sessionId"@) && is_fork_key("uuid"@) && is_fork_key("parentUuid"@)
        && is_fork_key("logicalParentUuid"@) && is_fork_key("isSidechain"@) && is_fork_key(
        "forkedFrom"@,
    ) && is_fork_key("timestamp"@));
    assert(is_session_key("teamName"@) && is_session_key("agentName"@) && is_session_key("slug"@)
        && is_session_key("sourceToolAssistantUUID"@));
}

/// A forked entry says that it is of no side chain.
pub proof fn lemma_fork_side_mark(
    ts: Seq<Members>,
    ids: Seq<Seq<char>>,
    i: int,
    old_id: Seq<char>,
    new_id: Seq<char>,
    now: Seq<char>,
)
    requires
        0 <= i < ts.len(),
        distinct_keys(ts[i]),
    ensures
        lookup(forked(ts, ids, i, old_id, new_id, now), "isSidechain"@) == Some(
            Json::Bool(false),
        ),
{
    let e = ts[i];
    let a = Json::Str(fresh_uuid(ts, ids, e));
    let b = text_or_null(written_ancestor(ts, ids, parent_of(e), ts.len()));
    let c = fresh_logical_parent(ts, ids, e);
    let d = Json::Str(new_id);
    let f = Json::Str(fresh_timestamp(e, last_written(ts) == Some(i), now));
    let g = Json::Object(origin(old_id, own_uuid(e)));
    lemma_fork_field_names();
    lemma_with_fork_fields(e, a, b, c, d, f, g, "isSidechain"@);
    lemma_without_session_fields(with_fork_fields(e, a, b, c, d, f, g), "isSidechain"@);
    assert(is_fork_key("isSidechain"@));
}

/// The last entry with a `uuid`.
proof fn lemma_last_named(ts: Seq<Members>, uuid: Seq<char>)
    ensures
        match last_named(ts, uuid) {
            Some(i) => 0 <= i < ts.len() && text_field(ts[i], "uuid"@) == Some(uuid),
            None => forall|i: int|
                0 <= i < ts.len() ==> text_field(#[trigger] ts[i], "uuid"@) != Some(uuid),
        },
    decreases ts.len(),
{
    if ts.len() > 0 && text_field(ts.last(), "uuid"@) != Some(uuid) {
        lemma_last_named(ts.drop_last(), uuid);
        assert(forall|i: int| 0 <= i < ts.len() - 1 ==> ts.drop_last()[i] == ts[i]);
    }
}

/// Where the parent of an entry is kept and written, the forked entry names
/// the forked parent as its parent: by the `uuid` that the forked parent has.
pub proof fn law_fork_keeps_parent_links(
    ts: Seq<Members>,
    ids: Seq<Seq<char>>,
    i: int,
    j: int,
    old_id: Seq<char>,
    new_id: Seq<char>,
    now: Seq<char>,
)
    requires
        0 <= i < ts.len(),
        distinct_keys(ts[i]),
        parent_of(ts[i]) is Some,
        last_named(ts, parent_of(ts[i])->0) == Some(j),
        distinct_keys(ts[j]),
        !is_progress(ts[j]),
    ensures
        text_field(forked(ts, ids, i, old_id, new_id, now), "parentUuid"@) == text_field(
            forked(ts, ids, j, old_id, new_id, now),
            "uuid"@,
        ),
{
    let p = parent_of(ts[i])->0;
    lemma_last_named(ts, p);
    law_forked_fields(ts, ids, i, old_id, new_id, now, "type"@);
    law_forked_fields(ts, ids, j, old_id, new_id, now, "type"@);
    assert(own_uuid(ts[j]) == p);
}

/// A fork holds no progress entry of the session it was made from, and one
/// entry for each other kept entry.
pub proof fn law_fork_counts(
    ts: Seq<Members>,
    ids: Seq<Seq<char>>,
    n: int,
    old_id: Seq<char>,
    new_id: Seq<char>,
    now: Seq<char>,
)
    requires
        0 <= n <= ts.len(),
    ensures
        forked_upto(ts, ids, n, old_id, new_id, now).len() == ts.take(n).filter(
            |e: Members| !is_progress(e),
        ).len(),
    decreases n,
{
    reveal(Seq::filter);
    if n > 0 {
        law_fork_counts(ts, ids, n - 1, old_id, new_id, now);
        assert(ts.take(n).drop_last() =~= ts.take(n - 1));
        assert(ts.take(n).last() == ts[n - 1]);
    } else {
        assert(ts.take(0) =~= Seq::<Members>::empty());
    }
}

// ---------------------------------------------------------------------------
// From a session to a fork
// ---------------------------------------------------------------------------

/// The content replacements that an entry carries for a session.
pub open spec fn replacements_in(e: Members, session_id: Seq<char>) -> Seq<Json> {
    if text_field(e, "type"@) == Some("content-replacement"@) && text_field(e, "sessionId"@)
        == Some(session_id) {
        match list_field(e, "replacements"@) {
            Some(list) => list,
            None => Seq::empty(),
        }
    } else {
        Seq::empty()
    }
}

/// The content replacements that entries carry for a session.
pub open spec fn all_replacements(es: Seq<Members>, session_id: Seq<char>) -> Seq<Json>
    decreases es.len(),
{
    if es.len() == 0 {
        Seq::empty()
    } else {
        all_replacements(es.drop_last(), session_id) + replacements_in(es.last(), session_id)
    }
}

/// The content replacements that entries carry for a session.
pub fn collect_replacements(entries: &Vec<TranscriptEntry>, session_id: &str) -> (r: Vec<Value>)
    ensures
        jsons(r@) == all_replacements(member_lists(entries@), session_id@),
{
    let ghost es = member_lists(entries@);
    let mut out: Vec<Value> = Vec::new();
    let mut i: usize = 0;
    proof {
        assert(es.take(0) =~= Seq::<Members>::empty());
        assert(jsons(out@) =~= Seq::<Json>::empty());
    }
    while i < entries.len()
        invariant
            es == member_lists(entries@),
            i <= entries@.len(),
            jsons(out@) == all_replacements(es.take(i as int), session_id@),
        decreases entries@.len() - i,
    {
        let ghost were = out@;
        proof {
            assert(es.take(i as int + 1).drop_last() =~= es.take(i as int));
            assert(es.take(i as int + 1).last() == members(entries@[i as int]));
            assert(jsons(were) + Seq::<Json>::empty() =~= jsons(were));
        }
        if field_is(&entries[i], "type", "content-replacement") && field_is(
            &entries[i],
            "sessionId",
            session_id,
        ) {
            match get_list(&entries[i], "replacements") {
                Some(list) => {
                    let mut more = copy_values(list);
                    let ghost added = more@;
                    out.append(&mut more);
                    proof {
                        assert(out@ =~= were + added);
                        assert(jsons(out@) =~= jsons(were) + jsons(added));
                    }
                },
                None => {},
            }
        }
        i = i + 1;
    }
    proof {
        assert(es.take(es.len() as int) =~= es);
    }
    out
}

/// The objects in the bytes of a transcript.
pub open spec fn content_objects(content: Seq<u8>) -> Seq<Members> {
    line_objects(split_on(lossy_text(content), '\n'))
}

/// Parses JSONL content into transcript entries and content replacements.
pub fn parse_fork_transcript(content: &[u8], session_id: &str) -> (r: (
    Vec<TranscriptEntry>,
    Vec<Value>,
))
    ensures
        member_lists(r.0@) == transcript_only(content_objects(content@)),
        jsons(r.1@) == all_replacements(content_objects(content@), session_id@),
{
    let entries = parse_object_lines(&decode_lossy(content));
    (filter_transcript_entries(&entries), collect_replacements(&entries, session_id))
}

/// The last text under a key among entries that is not empty.
pub open spec fn last_full_text(es: Seq<Members>, k: Seq<char>) -> Option<Seq<char>>
    decreases es.len(),
{
    if es.len() == 0 {
        None
    } else {
        match full_text_field(es.last(), k) {
            Some(t) => Some(t),
            None => last_full_text(es.drop_last(), k),
        }
    }
}

/// The title in the entries of a session.
pub open spec fn entries_title(es: Seq<Members>) -> Option<Seq<char>> {
    or_else(
        last_full_text(es, "customTitle"@),
        or_else(
            last_full_text(es, "aiTitle"@),
            nonempty_view(
                Some(first_prompt_of(split_on(entries_text(es), '\n'), Seq::empty())),
            ),
        ),
    )
}

/// The last text under a key among entries that is not empty.
fn find_last_full_text(entries: &Vec<TranscriptEntry>, k: &str) -> (r: Option<String>)
    ensures
        text_view(r) == last_full_text(member_lists(entries@), k@),
{
    let ghost es = member_lists(entries@);
    let mut n: usize = entries.len();
    proof {
        assert(es.take(n as int) =~= es);
    }
    while n > 0
        invariant
            es == member_lists(entries@),
            n <= entries@.len(),
            last_full_text(es, k@) == last_full_text(es.take(n as int), k@),
        decreases n,
    {
        proof {
            assert(es.take(n as int).last() == members(entries@[n as int - 1]));
            assert(es.take(n as int).drop_last() =~= es.take(n as int - 1));
        }
        match get_full_text(&entries[n - 1], k) {
            Some(t) => return Some(t.to_owned()),
            None => {},
        }
        n = n - 1;
    }
    None
}

/// The title in the entries of a session.
pub fn derive_title_from_entries(raw: &Vec<TranscriptEntry>) -> (r: Option<String>)
    ensures
        text_view(r) == entries_title(member_lists(raw@)),
{
    if let Some(t) = find_last_full_text(raw, "customTitle") {
        return Some(t);
    }
    if let Some(t) = find_last_full_text(raw, "aiTitle") {
        return Some(t);
    }
    crate::text::nonempty(Some(extract_first_prompt_from_head(&text_of_entries(raw))))
}

/// Whether all identifiers of a fork are random UUIDs.
pub open spec fn is_fresh(f: Fresh) -> bool {
    &&& is_random_uuid(f.session_id) && is_random_uuid(f.replacement) && is_random_uuid(f.title)
    &&& forall|i: int| 0 <= i < f.entries.len() ==> is_random_uuid(#[trigger] f.entries[i])
}

/// Fresh identifiers for a fork of `n` entries.
pub fn fresh_fork_ids(n: usize) -> (r: ForkIds)
    ensures
        r.entries@.len() == n,
        is_fresh(r@),
{
    let mut entries: Vec<String> = Vec::new();
    let mut i: usize = 0;
    while i < n
        invariant
            i <= n,
            entries@.len() == i,
            forall|j: int| 0 <= j < i ==> is_random_uuid((#[trigger] entries@[j])@),
        decreases n - i,
    {
        entries.push(new_uuid());
        i = i + 1;
    }
    ForkIds { entries, session_id: new_uuid(), replacement: new_uuid(), title: new_uuid() }
}

/// Checks the identifiers of a request to fork.
pub fn check_fork_request(session_id: &str, up_to_message_id: Option<&str>) -> (r: Result<
    (),
    ClaudeError,
>)
    ensures
        match r {
            Ok(()) => is_uuid(session_id@) && (up_to_message_id matches Some(up) ==> is_uuid(up@)),
            Err(e) => if is_uuid(session_id@) {
                up_to_message_id matches Some(up) && !is_uuid(up@) && e.is_invalid_config(
                    "Invalid up_to_message_id: "@ + up@,
                )
            } else {
                e.is_invalid_config("Invalid session_id: "@ + session_id@)
            },
        },
{
    match require_uuid(session_id) {
        Ok(_) => {},
        Err(e) => return Err(e),
    }
    match up_to_message_id {
        Some(up) => {
            if validate_uuid(up).is_none() {
                return Err(
                    ClaudeError::InvalidConfig(concat("Invalid up_to_message_id: ", up)),
                );
            }
        },
        None => {},
    }
    Ok(())
}

/// What a fork of the transcript in a file is made of, or the text of the
/// error.
pub open spec fn content_source(
    content: Seq<u8>,
    session_id: Seq<char>,
    up_to: Option<Seq<char>>,
) -> Result<Seq<Members>, Seq<char>> {
    if content.len() == 0 {
        Err(no_messages_text(session_id))
    } else {
        fork_source(transcript_only(content_objects(content)), session_id, up_to)
    }
}

/// The entries of a fork of the transcript in a file.
pub open spec fn forked_content(
    content: Seq<u8>,
    kept: Seq<Members>,
    session_id: Seq<char>,
    title: Option<Seq<char>>,
    fresh: Fresh,
    now: Seq<char>,
) -> Seq<Members> {
    fork_entries(
        kept,
        all_replacements(content_objects(content), session_id),
        session_id,
        fork_title(title, entries_title(content_objects(content))),
        fresh,
        now,
    )
}

/// A fork with fresh identifiers, made at `now`, is written as the lines of
/// its entries. Plain entries are read back from the file as they are.
pub open spec fn written_fork(
    content: Seq<u8>,
    kept: Seq<Members>,
    session_id: Seq<char>,
    title: Option<Seq<char>>,
    fresh: Fresh,
    now: Seq<char>,
    body: Seq<char>,
) -> bool {
    let made = forked_content(content, kept, session_id, title, fresh, now);
    &&& is_fresh(fresh) && is_clock_text(now)
    &&& body == joined(entry_lines(made), "\n"@).push('\n')
    &&& all_plain(made) ==> holds(body, made)
}

/// Forks the transcript in a file: the identifier of the new session, and the
/// text of its file.
pub fn fork_file(
    content: &[u8],
    session_id: &str,
    up_to_message_id: Option<&str>,
    title: Option<&str>,
) -> (r: Result<(String, String), ClaudeError>)
    ensures
        match content_source(content@, session_id@, str_view(up_to_message_id)) {
            Ok(kept) => r matches Ok((id, body)) && exists|fresh: Fresh, now: Seq<char>|
                id@ == fresh.session_id && #[trigger] written_fork(
                    content@,
                    kept,
                    session_id@,
                    str_view(title),
                    fresh,
                    now,
                    body@,
                ),
            Err(text) => r matches Err(e) && e.is_invalid_config(text),
        },
{
    if content.len() == 0 {
        return Err(no_messages_err(session_id));
    }
    let entries = parse_object_lines(&decode_lossy(content));
    let transcript = filter_transcript_entries(&entries);
    let replacements = collect_replacements(&entries, session_id);
    let derived = derive_title_from_entries(&entries);
    let ids = fresh_fork_ids(transcript.len());
    let now = crate::time::iso_now();
    let given: Option<&str> = match &derived {
        Some(d) => Some(d.as_str()),
        None => None,
    };
    match build_fork_lines(
        &transcript,
        &replacements,
        session_id,
        up_to_message_id,
        title,
        given,
        &ids,
        &now,
    ) {
        Ok((id, lines)) => {
            let mut body = crate::text::join(&lines, "\n");
            body.push('\n');
            let out: Result<(String, String), ClaudeError> = Ok((id, body));
            proof {
                let kept = content_source(content@, session_id@, str_view(up_to_message_id))->Ok_0;
                let made = forked_content(
                    content@,
                    kept,
                    session_id@,
                    str_view(title),
                    ids@,
                    now@,
                );
                if all_plain(made) {
                    lemma_spaced_lines(text_views(lines@), made);
                }
                assert(written_fork(
                    content@,
                    kept,
                    session_id@,
                    str_view(title),
                    ids@,
                    now@,
                    out->Ok_0.1@,
                ));
            }
            out
        },
        Err(e) => Err(e),
    }
}

/// The entries of a fork of the entries of a session in a store.
pub open spec fn forked_loaded(
    loaded: Seq<Members>,
    kept: Seq<Members>,
    session_id: Seq<char>,
    title: Option<Seq<char>>,
    fresh: Fresh,
    now: Seq<char>,
) -> Seq<Members> {
    fork_entries(
        kept,
        all_replacements(loaded, session_id),
        session_id,
        fork_title(title, entries_title(loaded)),
        fresh,
        now,
    )
}

/// A fork with fresh identifiers, made at `now`, is stored as its entries are
/// read back from their lines. Plain entries are stored as they are.
pub open spec fn stored_fork(
    loaded: Seq<Members>,
    kept: Seq<Members>,
    session_id: Seq<char>,
    title: Option<Seq<char>>,
    fresh: Fresh,
    now: Seq<char>,
    stored: Seq<Members>,
) -> bool {
    let made = forked_loaded(loaded, kept, session_id, title, fresh, now);
    &&& is_fresh(fresh) && is_clock_text(now)
    &&& stored == line_objects(entry_lines(made))
    &&& all_plain(made) ==> stored == made
}

/// A file and a store with the same entries are forked alike: with the same
/// request, identifiers and time, the file of the one fork holds the entries
/// of the other. An empty file holds no entries.
pub proof fn law_file_and_store_fork_alike(
    content: Seq<u8>,
    loaded: Seq<Members>,
    session_id: Seq<char>,
    up_to: Option<Seq<char>>,
    title: Option<Seq<char>>,
    fresh: Fresh,
    now: Seq<char>,
    body: Seq<char>,
    stored: Seq<Members>,
)
    requires
        content_objects(content) == loaded,
        content.len() == 0 ==> loaded.len() == 0,
    ensures
        content_source(content, session_id, up_to) == fork_source(
            transcript_only(loaded),
            session_id,
            up_to,
        ),
        match fork_source(transcript_only(loaded), session_id, up_to) {
            Ok(kept) => {
                &&& forked_content(content, kept, session_id, title, fresh, now) == forked_loaded(
                    loaded,
                    kept,
                    session_id,
                    title,
                    fresh,
                    now,
                )
                &&& written_fork(content, kept, session_id, title, fresh, now, body)
                    && stored_fork(loaded, kept, session_id, title, fresh, now, stored)
                    && all_plain(forked_loaded(loaded, kept, session_id, title, fresh, now))
                    ==> holds(body, stored)
            },
            Err(_) => true,
        },
{
}

/// The objects on lines.
fn objects_on_lines(lines: &Vec<String>) -> (r: Vec<TranscriptEntry>)
    ensures
        member_lists(r@) == line_objects(text_views(lines@)),
{
    let ghost all = text_views(lines@);
    let mut out: Vec<TranscriptEntry> = Vec::new();
    let mut i: usize = 0;
    proof {
        assert(all.take(0) =~= Seq::<Seq<char>>::empty());
        assert(member_lists(out@) =~= Seq::<Members>::empty());
    }
    while i < lines.len()
        invariant
            all == text_views(lines@),
            i <= lines@.len(),
            member_lists(out@) == line_objects(all.take(i as int)),
        decreases lines@.len() - i,
    {
        let ghost were = out@;
        proof {
            assert(all.take(i as int + 1).drop_last() =~= all.take(i as int));
            assert(all.take(i as int + 1).last() == lines@[i as int]@);
        }
        match read_object_line(&lines[i]) {
            Some(e) => {
                out.push(e);
                proof {
                    assert(member_lists(out@) =~= member_lists(were).push(members(e)));
                }
            },
            None => {},
        }
        i = i + 1;
    }
    proof {
        assert(all.take(all.len() as int) =~= all);
    }
    out
}

/// Forks the entries of a session in a store: the identifier of the new
/// session, and its entries as they are read back from the lines of the fork.
pub fn fork_loaded(
    loaded: &Vec<TranscriptEntry>,
    session_id: &str,
    up_to_message_id: Option<&str>,
    title: Option<&str>,
) -> (r: Result<(String, Vec<TranscriptEntry>), ClaudeError>)
    ensures
        match fork_source(
            transcript_only(member_lists(loaded@)),
            session_id@,
            str_view(up_to_message_id),
        ) {
            Ok(kept) => r matches Ok((id, entries)) && exists|fresh: Fresh, now: Seq<char>|
                id@ == fresh.session_id && #[trigger] stored_fork(
                    member_lists(loaded@),
                    kept,
                    session_id@,
                    str_view(title),
                    fresh,
                    now,
                    member_lists(entries@),
                ),
            Err(text) => r matches Err(e) && e.is_invalid_config(text),
        },
{
    let transcript = filter_transcript_entries(loaded);
    let replacements = collect_replacements(loaded, session_id);
    let derived = derive_title_from_entries(loaded);
    let ids = fresh_fork_ids(transcript.len());
    let now = crate::time::iso_now();
    let given: Option<&str> = match &derived {
        Some(d) => Some(d.as_str()),
        None => None,
    };
    let kept = match fork_kept(&transcript, session_id, up_to_message_id) {
        Ok(k) => k,
        Err(e) => return Err(e),
    };
    let name = choose_fork_title(title, given);
    let made = build_fork_entries(&kept, &replacements, session_id, &name, &ids, &now);
    let lines = lines_of_entries(&made);
    let entries = objects_on_lines(&lines);
    let out: Result<(String, Vec<TranscriptEntry>), ClaudeError> = Ok(
        (ids.session_id.clone(), entries),
    );
    proof {
        assert(out->Ok_0.1@ == entries@);
        assert(stored_fork(
            member_lists(loaded@),
            member_lists(kept@),
            session_id@,
            str_view(title),
            ids@,
            now@,
            member_lists(out->Ok_0.1@),
        ));
        let src = fork_source(
            transcript_only(member_lists(loaded@)),
            session_id@,
            str_view(up_to_message_id),
        );
        assert(src->Ok_0 == member_lists(kept@));
        assert(exists|fresh: Fresh, now: Seq<char>|
            out->Ok_0.0@ == fresh.session_id && #[trigger] stored_fork(
                member_lists(loaded@),
                src->Ok_0,
                session_id@,
                str_view(title),
                fresh,
                now,
                member_lists(out->Ok_0.1@),
            ));
    }
    out
}

/// Forks a session in a store by what was loaded of it. A session that is
/// absent is not found; one without messages is no source for a fork.
pub fn fork_stored(
    loaded: Option<&Vec<TranscriptEntry>>,
    session_id: &str,
    up_to_message_id: Option<&str>,
    title: Option<&str>,
) -> (r: Result<(String, Vec<TranscriptEntry>), ClaudeError>)
    ensures
        match loaded {
            Some(list) => match fork_source(
                transcript_only(member_lists(list@)),
                session_id@,
                str_view(up_to_message_id),
            ) {
                Ok(kept) => r matches Ok((id, entries)) && exists|fresh: Fresh, now: Seq<char>|
                    id@ == fresh.session_id && #[trigger] stored_fork(
                        member_lists(list@),
                        kept,
                        session_id@,
                        str_view(title),
                        fresh,
                        now,
                        member_lists(entries@),
                    ),
                Err(text) => r matches Err(e) && e.is_invalid_config(text),
            },
            None => r matches Err(e) && e.is_transport_error(not_found_text(session_id@, None)),
        },
{
    match loaded {
        Some(list) => fork_loaded(list, session_id, up_to_message_id, title),
        None => Err(ClaudeError::TransportError(not_found_message(session_id, None))),
    }
}

} // verus!
