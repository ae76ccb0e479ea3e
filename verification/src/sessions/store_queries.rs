//! Queries on the sessions of a store: what is made of the entries, summaries
//! and listings that a store hands out.
//!
//! A store and the disk give the same answers for the same transcript: both
//! go through the same readings of the text and of the entries.
use serde_json::Map as JsonMap;
use vstd::prelude::*;

use crate::error::ClaudeError;
use crate::json::{
    distinct_keys, has_key, json, key_index, lemma_key_index, lookup, member_lists, members, pairs,
    parsed, text_field, Json, Members,
};
use crate::sessions::jsonl::{all_plain, entries_text, holds, text_of_entries};
use crate::sessions::key::{subpath_fault, Key, SessionKey};
use crate::sessions::lite::{
    head_text, is_uuid, lite_from_bytes, lite_info, parse_session_info_from_lite, tail_text,
    validate_uuid, LiteSessionFile,
};
use crate::sessions::listing::{apply_sort_limit_offset, newest_first};
use crate::sessions::sorting::{law_sorted_desc, sort_desc, sorted_desc, Ranked};
use crate::sessions::store::{
    bare_info, info_view, info_views, listing_views, summary_views, Info, SDKSessionInfo,
    SessionStoreCapabilities, SessionStoreEntry, SessionStoreListEntry,
};
use crate::sessions::summary::{
    summary_entry_to_sdk_info, summary_info, SessionSummaryEntry, Summary,
};
use crate::sessions::transcript::{
    conversation, conversation_messages, entries_to_session_messages, entries_to_subagent_messages,
    filter_transcript_entries, list_has, message_views, page, paged, subagent_conversation,
    transcript_only, visible_messages, SessionMessage,
};
use crate::text::{
    after_prefix, concat, same, split, split_on, starts_with, strip_prefix, text_view, text_views,
    trim_end, trimmed_end,
};
use crate::time::iso_ms;

verus! {

broadcast use vstd::string::group_string_axioms;

// ---------------------------------------------------------------------------
// Entries as text
// ---------------------------------------------------------------------------

/// Every member but `type`.
pub open spec fn without_type(m: Members) -> Members {
    m.filter(|p: (Seq<char>, Json)| p.0 != "type"@)
}

/// An entry with its `type` in front and the other members in their order.
pub open spec fn hoisted(m: Members) -> Members {
    match lookup(m, "type"@) {
        Some(t) => seq![("type"@, t)] + without_type(m),
        None => m,
    }
}

/// Entries, each with its `type` in front.
pub open spec fn hoisted_all(es: Seq<Members>) -> Seq<Members> {
    Seq::new(es.len(), |i: int| hoisted(es[i]))
}

/// A key that members lack is found nowhere in them.
proof fn lemma_new_key(m: Members, k: Seq<char>)
    requires
        forall|i: int| 0 <= i < m.len() ==> (#[trigger] m[i]).0 != k,
    ensures
        !has_key(m, k),
{
    lemma_key_index(m, k);
}

/// An entry with its `type` in front.
pub fn hoist_type(e: &SessionStoreEntry) -> (r: SessionStoreEntry)
    ensures
        members(r) == hoisted(members(*e)),
{
    let t = match crate::json::get(e, "type") {
        Some(t) => t.clone(),
        None => return e.clone(),
    };
    let ghost m = members(*e);
    let mut out: SessionStoreEntry = JsonMap::new();
    out.insert("type".to_owned(), t);
    let list = pairs(e);
    let mut i: usize = 0;
    proof {
        reveal(Seq::filter);
        lemma_new_key(Seq::empty(), "type"@);
        assert(without_type(m.take(0)) =~= Seq::empty());
        assert(members(out) =~= seq![("type"@, json(t))] + without_type(m.take(0)));
    }
    while i < list.len()
        invariant
            m == members(*e),
            list@.len() == m.len(),
            i <= list@.len(),
            forall|j: int|
                0 <= j < list@.len() ==> (#[trigger] list@[j]).0@ == m[j].0 && json(*list@[j].1)
                    == m[j].1,
            forall|j: int, k: int|
                0 <= j < k < list@.len() ==> (#[trigger] list@[j]).0@ != (#[trigger] list@[k]).0@,
            members(out) == seq![("type"@, json(t))] + without_type(m.take(i as int)),
        decreases list@.len() - i,
    {
        let ghost before = m.take(i as int);
        let ghost keep = |p: (Seq<char>, Json)| p.0 != "type"@;
        proof {
            reveal(Seq::filter);
            assert(m.take(i as int + 1).drop_last() =~= before);
            assert(m.take(i as int + 1).last() == m[i as int]);
            assert(list@[i as int].0@ == m[i as int].0);
        }
        if !same(list[i].0.as_str(), "type") {
            proof {
                assert forall|j: int| 0 <= j < members(out).len() implies (
                #[trigger] members(out)[j]).0 != m[i as int].0 by {
                    if j > 0 {
                        let p = without_type(before)[j - 1];
                        assert(members(out)[j] == p);
                        before.lemma_filter_contains_rev(keep, p);
                        let k = choose|k: int| 0 <= k < before.len() && before[k] == p;
                        assert(list@[k].0@ == m[k].0);
                    }
                }
                lemma_new_key(members(out), m[i as int].0);
            }
            out.insert(list[i].0.clone(), list[i].1.clone());
        }
        i = i + 1;
        proof {
            assert(members(out) =~= seq![("type"@, json(t))] + without_type(m.take(i as int)));
        }
    }
    proof {
        assert(m.take(m.len() as int) =~= m);
    }
    out
}

/// The lines of entries, each entry with its `type` in front.
///
/// A store may hand out the members of an entry in any order. Readings of the
/// text look for lines that start with the type.
pub fn entries_to_jsonl(entries: &Vec<SessionStoreEntry>) -> (r: String)
    ensures
        r@ == entries_text(hoisted_all(member_lists(entries@))),
        all_plain(hoisted_all(member_lists(entries@))) ==> holds(
            r@,
            hoisted_all(member_lists(entries@)),
        ),
{
    let mut ordered: Vec<SessionStoreEntry> = Vec::new();
    let mut i: usize = 0;
    while i < entries.len()
        invariant
            i <= entries@.len(),
            ordered@.len() == i,
            forall|j: int|
                0 <= j < i ==> members(#[trigger] ordered@[j]) == hoisted(members(entries@[j])),
        decreases entries@.len() - i,
    {
        ordered.push(hoist_type(&entries[i]));
        i = i + 1;
    }
    proof {
        assert(member_lists(ordered@) =~= hoisted_all(member_lists(entries@)));
    }
    text_of_entries(&ordered)
}

/// Moving `type` to the front changes no field of an entry.
pub proof fn law_hoisting_keeps_fields(m: Members, k: Seq<char>)
    requires
        distinct_keys(m),
    ensures
        lookup(hoisted(m), k) == lookup(m, k),
        distinct_keys(hoisted(m)),
        hoisted(m).len() == m.len(),
{
    lemma_key_index(m, "type"@);
    lemma_key_index(m, k);
    lemma_key_index(hoisted(m), k);
    if has_key(m, "type"@) {
        let at = key_index(m, "type"@);
        lemma_without_type(m, at);
        let h = hoisted(m);
        assert(h =~= seq![m[at]] + m.remove(at));
        assert forall|i: int, j: int| 0 <= i < j < h.len() implies (#[trigger] h[i]).0 != (
        #[trigger] h[j]).0 by {
            let a = if i == 0 {
                at
            } else if i <= at {
                i - 1
            } else {
                i
            };
            let b = if j <= at {
                j - 1
            } else {
                j
            };
            assert(h[i] == m[a] && h[j] == m[b] && a != b);
        }
        if has_key(m, k) {
            let x = key_index(m, k);
            let y = if x == at {
                0
            } else if x < at {
                x + 1
            } else {
                x
            };
            assert(h[y] == m[x]);
            assert(has_key(h, k));
            let z = key_index(h, k);
            assert(h[z].0 == h[y].0);
        } else if has_key(h, k) {
            let z = key_index(h, k);
            let a = if z == 0 {
                at
            } else if z <= at {
                z - 1
            } else {
                z
            };
            assert(h[z] == m[a]);
        }
    }
}

/// Without `type`, members are those on both sides of it.
proof fn lemma_without_type(m: Members, at: int)
    requires
        distinct_keys(m),
        0 <= at < m.len(),
        m[at].0 == "type"@,
    ensures
        without_type(m) == m.remove(at),
    decreases m.len(),
{
    reveal(Seq::filter);
    let keep = |p: (Seq<char>, Json)| p.0 != "type"@;
    let front = m.drop_last();
    if at == m.len() - 1 {
        assert forall|i: int| 0 <= i < front.len() implies keep(#[trigger] front[i]) by {
            assert(m[i].0 != m[at].0);
        }
        lemma_keeps_all(front);
        assert(m.remove(at) =~= front);
    } else {
        lemma_without_type(front, at);
        assert(m.last().0 != m[at].0);
        assert(m.remove(at) =~= front.remove(at).push(m.last()));
    }
}

/// Members without a `type` are kept as they are.
proof fn lemma_keeps_all(m: Members)
    requires
        forall|i: int| 0 <= i < m.len() ==> (#[trigger] m[i]).0 != "type"@,
    ensures
        without_type(m) == m,
    decreases m.len(),
{
    reveal(Seq::filter);
    if m.len() > 0 {
        lemma_keeps_all(m.drop_last());
        assert(m =~= m.drop_last().push(m.last()));
    }
}

// ---------------------------------------------------------------------------
// Metadata of one session
// ---------------------------------------------------------------------------

/// The head and the tail of a text of lines, as of a file with this text.
pub fn jsonl_to_lite(jsonl: &str, mtime: i64) -> (r: LiteSessionFile)
    ensures
        r.mtime == mtime,
        r.size == byte_count(jsonl@),
        r.head@ == head_text(vstd::utf8::encode_utf8(jsonl@)),
        r.tail@ == tail_text(vstd::utf8::encode_utf8(jsonl@)),
{
    lite_from_bytes(jsonl.as_bytes(), mtime)
}

/// The size of a text in bytes, at most `i64::MAX`.
pub open spec fn byte_count(s: Seq<char>) -> i64 {
    if vstd::utf8::encode_utf8(s).len() <= i64::MAX {
        vstd::utf8::encode_utf8(s).len() as i64
    } else {
        i64::MAX
    }
}

/// What a text of lines tells about a session.
pub open spec fn text_info(
    session_id: Seq<char>,
    jsonl: Seq<char>,
    mtime: i64,
    project_path: Seq<char>,
) -> Option<Info> {
    let bytes = vstd::utf8::encode_utf8(jsonl);
    lite_info(
        session_id,
        mtime,
        byte_count(jsonl),
        head_text(bytes),
        tail_text(bytes),
        Some(project_path),
    )
}

/// The time of the last line of a text, where the line is an object with a
/// well-formed `timestamp`.
pub open spec fn tail_time(jsonl: Seq<char>) -> Option<int> {
    match parsed(split_on(trimmed_end(jsonl), '\n').last()) {
        Some(Json::Object(m)) => match text_field(m, "timestamp"@) {
            Some(ts) => iso_ms(ts),
            None => None,
        },
        _ => None,
    }
}

/// The time that the last line of a text carries.
pub fn timestamp_of_last_line(jsonl: &str) -> (r: Option<i64>)
    ensures
        match r {
            Some(ms) => tail_time(jsonl@) == Some(ms as int),
            None => tail_time(jsonl@) is None,
        },
{
    let bare = trim_end(jsonl);
    let lines = split(&bare, '\n');
    proof {
        crate::text::law_join_undoes_split(bare@, '\n');
        assert(text_views(lines@).len() == lines@.len());
        assert(text_views(lines@).last() == lines@.last()@);
    }
    match crate::json::parse(&lines[lines.len() - 1]) {
        Some(v) => match v.as_object() {
            Some(m) => match crate::json::get_text(m, "timestamp") {
                Some(ts) => crate::time::parse_iso8601_ms(ts),
                None => None,
            },
            None => None,
        },
        None => None,
    }
}

/// The time of a transcript: that of its last line, or the clock's time where
/// the line carries none.
pub fn mtime_from_jsonl_tail(jsonl: &str) -> (r: i64)
    ensures
        match tail_time(jsonl@) {
            Some(ms) => r == ms,
            None => r >= 0,
        },
{
    match timestamp_of_last_line(jsonl) {
        Some(ms) => ms,
        None => crate::time::now_ms(),
    }
}

/// What the entries of a session tell about it.
pub open spec fn stored_info(
    session_id: Seq<char>,
    es: Seq<Members>,
    mtime: i64,
    project_path: Seq<char>,
) -> Option<Info> {
    if es.len() == 0 {
        None
    } else {
        text_info(session_id, entries_text(hoisted_all(es)), mtime, project_path)
    }
}

/// What the loaded entries of a session, last modified at `mtime`, tell about
/// it. Nothing for a session without entries, a sidechain, or one without a
/// summary.
pub fn info_of_entries(
    session_id: &str,
    entries: &Vec<SessionStoreEntry>,
    mtime: i64,
    project_path: &str,
) -> (r: Option<SDKSessionInfo>)
    ensures
        info_view(r) == stored_info(session_id@, member_lists(entries@), mtime, project_path@),
{
    if entries.len() == 0 {
        return None;
    }
    let lite = jsonl_to_lite(&entries_to_jsonl(entries), mtime);
    parse_session_info_from_lite(session_id, &lite, Some(project_path))
}

/// Metadata of one session from its loaded entries. `None` where nothing was
/// loaded, where the identifier is no UUID, or where [`info_of_entries`] finds
/// nothing.
pub fn session_info_from_entries(
    session_id: &str,
    entries: Option<&Vec<SessionStoreEntry>>,
    project_path: &str,
) -> (r: Option<SDKSessionInfo>)
    ensures
        match entries {
            Some(list) if is_uuid(session_id@) => exists|mtime: i64|
                is_read_time(entries_text(hoisted_all(member_lists(list@))), mtime) && info_view(r)
                    == #[trigger] stored_info(
                    session_id@,
                    member_lists(list@),
                    mtime,
                    project_path@,
                ),
            _ => r is None,
        },
{
    if validate_uuid(session_id).is_none() {
        return None;
    }
    match entries {
        Some(list) => {
            let mtime = mtime_from_jsonl_tail(&entries_to_jsonl(list));
            let r = info_of_entries(session_id, list, mtime, project_path);
            proof {
                assert(is_read_time(entries_text(hoisted_all(member_lists(list@))), mtime));
            }
            r
        },
        None => None,
    }
}

/// A time that [`mtime_from_jsonl_tail`] may give for a text: the one on the
/// last line, if any, else the time of the call.
pub open spec fn is_read_time(jsonl: Seq<char>, mtime: i64) -> bool {
    match tail_time(jsonl) {
        Some(ms) => mtime == ms,
        None => mtime >= 0,
    }
}

/// A file with the text of a session's entries tells the same about the
/// session as the entries do.
pub proof fn law_file_and_store_tell_the_same(
    session_id: Seq<char>,
    es: Seq<Members>,
    mtime: i64,
    project_path: Seq<char>,
    bytes: Seq<u8>,
)
    requires
        es.len() > 0,
        bytes == vstd::utf8::encode_utf8(entries_text(hoisted_all(es))),
        bytes.len() <= i64::MAX,
    ensures
        stored_info(session_id, es, mtime, project_path) == lite_info(
            session_id,
            mtime,
            bytes.len() as i64,
            head_text(bytes),
            tail_text(bytes),
            Some(project_path),
        ),
{
}

// ---------------------------------------------------------------------------
// Listings
// ---------------------------------------------------------------------------

/// How the sessions of a store are listed.
#[derive(Debug, Clone, Copy, PartialEq, Eq, Structural)]
pub enum ListPlan {
    /// From the summaries alone.
    Summaries,
    /// From the summaries, with loads for the sessions that lack a fresh one.
    SummariesAndListing,
    /// With one load for each session.
    Listing,
}

/// What a store without any listing is answered.
pub open spec fn no_listing_text() -> Seq<char> {
    "session_store implements neither list_session_summaries() nor list_sessions() -- cannot list sessions. Provide a store with at least one of those methods."@
}

/// How the sessions of a store with these capabilities are listed.
pub fn choose_list_plan(caps: &SessionStoreCapabilities) -> (r: Result<ListPlan, ClaudeError>)
    ensures
        match r {
            Ok(ListPlan::SummariesAndListing) => caps.list_session_summaries && caps.list_sessions,
            Ok(ListPlan::Summaries) => caps.list_session_summaries && !caps.list_sessions,
            Ok(ListPlan::Listing) => !caps.list_session_summaries && caps.list_sessions,
            Err(e) => !caps.list_session_summaries && !caps.list_sessions && e.is_invalid_config(
                no_listing_text(),
            ),
        },
{
    if caps.list_session_summaries {
        if caps.list_sessions {
            Ok(ListPlan::SummariesAndListing)
        } else {
            Ok(ListPlan::Summaries)
        }
    } else if caps.list_sessions {
        Ok(ListPlan::Listing)
    } else {
        Err(
            ClaudeError::InvalidConfig(
                "session_store implements neither list_session_summaries() nor list_sessions() -- cannot list sessions. Provide a store with at least one of those methods.".to_owned(),
            ),
        )
    }
}

/// A place on a page of sessions: resolved from a summary, or a gap to fill
/// from the session's entries.
#[derive(Debug)]
pub struct ListSlot {
    /// Last-modified time in Unix epoch milliseconds.
    pub mtime: i64,
    /// The session.
    pub session_id: String,
    /// What is known of the session; `None` for a gap.
    pub info: Option<SDKSessionInfo>,
}

/// The contents of a [`ListSlot`].
pub ghost struct Row {
    pub mtime: i64,
    pub session_id: Seq<char>,
    pub info: Option<Info>,
}

impl View for ListSlot {
    type V = Row;

    open spec fn view(&self) -> Row {
        Row { mtime: self.mtime, session_id: self.session_id@, info: info_view(self.info) }
    }
}

impl Ranked for ListSlot {
    open spec fn rank_of(&self) -> int {
        self.mtime as int
    }

    fn rank(&self) -> (r: i64) {
        self.mtime
    }
}

/// The contents of slots.
pub open spec fn rows_of(v: Seq<ListSlot>) -> Seq<Row> {
    Seq::new(v.len(), |i: int| v[i]@)
}

/// The time at which a session was last modified by a listing. The last of
/// several lines on one session counts.
pub open spec fn known_mtime(listing: Seq<(Seq<char>, i64)>, session_id: Seq<char>) -> Option<i64>
    decreases listing.len(),
{
    if listing.len() == 0 {
        None
    } else if listing.last().0 == session_id {
        Some(listing.last().1)
    } else {
        known_mtime(listing.drop_last(), session_id)
    }
}

/// A summary counts if the store lists its session and has not written to the
/// session since. Without a listing every summary counts.
pub open spec fn is_current(s: Summary, listing: Option<Seq<(Seq<char>, i64)>>) -> bool {
    match listing {
        Some(l) => match known_mtime(l, s.session_id) {
            Some(known) => s.mtime >= known,
            None => false,
        },
        None => true,
    }
}

/// The rows that summaries give. A sidechain, or a session without a summary
/// text, gets no row.
pub open spec fn summary_rows(
    summaries: Seq<Summary>,
    listing: Option<Seq<(Seq<char>, i64)>>,
    project_path: Seq<char>,
) -> Seq<Row>
    decreases summaries.len(),
{
    if summaries.len() == 0 {
        Seq::empty()
    } else {
        let before = summary_rows(summaries.drop_last(), listing, project_path);
        let s = summaries.last();
        match summary_info(s, Some(project_path)) {
            Some(info) if is_current(s, listing) => before.push(
                Row { mtime: s.mtime, session_id: s.session_id, info: Some(info) },
            ),
            _ => before,
        }
    }
}

/// A session with a summary that counts.
pub open spec fn is_summarised(
    summaries: Seq<Summary>,
    listing: Option<Seq<(Seq<char>, i64)>>,
    session_id: Seq<char>,
) -> bool {
    exists|i: int|
        0 <= i < summaries.len() && (#[trigger] summaries[i]).session_id == session_id
            && is_current(summaries[i], listing)
}

/// The gaps: the listed sessions without a summary that counts.
pub open spec fn gap_rows(
    listing: Seq<(Seq<char>, i64)>,
    summaries: Seq<Summary>,
    all: Option<Seq<(Seq<char>, i64)>>,
) -> Seq<Row>
    decreases listing.len(),
{
    if listing.len() == 0 {
        Seq::empty()
    } else {
        let before = gap_rows(listing.drop_last(), summaries, all);
        let (session_id, mtime) = listing.last();
        if is_summarised(summaries, all, session_id) {
            before
        } else {
            before.push(Row { mtime, session_id, info: None })
        }
    }
}

/// The rows of a listing from summaries.
pub open spec fn list_rows(
    summaries: Seq<Summary>,
    listing: Option<Seq<(Seq<char>, i64)>>,
    project_path: Seq<char>,
) -> Seq<Row> {
    summary_rows(summaries, listing, project_path) + match listing {
        Some(l) => gap_rows(l, summaries, listing),
        None => Seq::empty(),
    }
}

/// The view of a listing that may be missing.
pub open spec fn listing_view(listing: Option<&Vec<SessionStoreListEntry>>) -> Option<
    Seq<(Seq<char>, i64)>,
> {
    match listing {
        Some(l) => Some(listing_views(l@)),
        None => None,
    }
}

/// The time at which a session was last modified by a listing.
pub fn find_known_mtime(listing: &Vec<SessionStoreListEntry>, session_id: &str) -> (r: Option<i64>)
    ensures
        r == known_mtime(listing_views(listing@), session_id@),
{
    let ghost all = listing_views(listing@);
    let mut i: usize = listing.len();
    proof {
        assert(all.take(i as int) =~= all);
    }
    while i > 0
        invariant
            all == listing_views(listing@),
            i <= listing@.len(),
            known_mtime(all, session_id@) == known_mtime(all.take(i as int), session_id@),
        decreases i,
    {
        i = i - 1;
        proof {
            assert(all.take(i as int + 1).drop_last() =~= all.take(i as int));
            assert(all.take(i as int + 1).last() == all[i as int]);
        }
        if same(&listing[i].session_id, session_id) {
            return Some(listing[i].mtime);
        }
    }
    proof {
        assert(all.take(0) =~= Seq::<(Seq<char>, i64)>::empty());
    }
    None
}

/// Tells whether a summary counts.
pub fn check_current(
    summary: &SessionSummaryEntry,
    listing: Option<&Vec<SessionStoreListEntry>>,
) -> (r: bool)
    ensures
        r == is_current(summary@, listing_view(listing)),
{
    match listing {
        Some(l) => match find_known_mtime(l, &summary.session_id) {
            Some(known) => summary.mtime >= known,
            None => false,
        },
        None => true,
    }
}

/// Puts the listed sessions behind `slots` that are not among `done`.
fn push_gaps(
    slots: &mut Vec<ListSlot>,
    listing: &Vec<SessionStoreListEntry>,
    done: &Vec<String>,
    summaries: &Vec<SessionSummaryEntry>,
)
    requires
        forall|s: Seq<char>| #[trigger]
            text_views(done@).contains(s) <==> is_summarised(
                summary_views(summaries@),
                Some(listing_views(listing@)),
                s,
            ),
    ensures
        rows_of(final(slots)@) == rows_of(old(slots)@) + gap_rows(
            listing_views(listing@),
            summary_views(summaries@),
            Some(listing_views(listing@)),
        ),
{
    let ghost all = listing_views(listing@);
    let ghost ss = summary_views(summaries@);
    let ghost first = rows_of(slots@);
    let mut i: usize = 0;
    proof {
        assert(all.take(0) =~= Seq::<(Seq<char>, i64)>::empty());
        assert(first + gap_rows(all.take(0), ss, Some(all)) =~= first);
    }
    while i < listing.len()
        invariant
            all == listing_views(listing@),
            ss == summary_views(summaries@),
            i <= listing@.len(),
            forall|s: Seq<char>| #[trigger]
                text_views(done@).contains(s) <==> is_summarised(ss, Some(all), s),
            rows_of(slots@) == first + gap_rows(all.take(i as int), ss, Some(all)),
        decreases listing@.len() - i,
    {
        let ghost were = slots@;
        proof {
            assert(all.take(i as int + 1).drop_last() =~= all.take(i as int));
            assert(all.take(i as int + 1).last() == all[i as int]);
        }
        if !list_has(done, &listing[i].session_id) {
            slots.push(
                ListSlot {
                    mtime: listing[i].mtime,
                    session_id: listing[i].session_id.clone(),
                    info: None,
                },
            );
            proof {
                assert(rows_of(slots@) =~= rows_of(were).push(slots@.last()@));
                assert(slots@.last()@ == Row {
                    mtime: all[i as int].1,
                    session_id: all[i as int].0,
                    info: None,
                });
                assert(rows_of(slots@) =~= first + gap_rows(all.take(i as int + 1), ss, Some(all)));
            }
        }
        i = i + 1;
    }
    proof {
        assert(all.take(all.len() as int) =~= all);
    }
}

/// The slots of a listing from summaries: those that the summaries resolve,
/// then a gap for each listed session without a summary that counts.
pub fn build_summary_slots(
    summaries: &Vec<SessionSummaryEntry>,
    listing: Option<&Vec<SessionStoreListEntry>>,
    project_path: &str,
) -> (r: Vec<ListSlot>)
    ensures
        rows_of(r@) == list_rows(
            summary_views(summaries@),
            listing_view(listing),
            project_path@,
        ),
{
    let ghost ss = summary_views(summaries@);
    let ghost l = listing_view(listing);
    let mut slots: Vec<ListSlot> = Vec::new();
    let mut done: Vec<String> = Vec::new();
    let mut i: usize = 0;
    proof {
        assert(rows_of(slots@) =~= summary_rows(ss.take(0), l, project_path@));
    }
    while i < summaries.len()
        invariant
            ss == summary_views(summaries@),
            l == listing_view(listing),
            i <= summaries@.len(),
            rows_of(slots@) == summary_rows(ss.take(i as int), l, project_path@),
            forall|s: Seq<char>| #[trigger]
                text_views(done@).contains(s) <==> is_summarised(ss.take(i as int), l, s),
        decreases summaries@.len() - i,
    {
        let ghost were = slots@;
        let ghost had = done@;
        let ghost now = ss.take(i as int + 1);
        proof {
            assert(now.drop_last() =~= ss.take(i as int));
            assert(now.last() == summaries@[i as int]@);
        }
        if check_current(&summaries[i], listing) {
            let info = summary_entry_to_sdk_info(&summaries[i], Some(project_path));
            if info.is_some() {
                slots.push(
                    ListSlot {
                        mtime: summaries[i].mtime,
                        session_id: summaries[i].session_id.clone(),
                        info,
                    },
                );
                proof {
                    assert(rows_of(slots@) =~= rows_of(were).push(slots@.last()@));
                }
            }
            done.push(summaries[i].session_id.clone());
            proof {
                assert(text_views(done@) =~= text_views(had).push(ss[i as int].session_id));
            }
        }
        proof {
            assert forall|s: Seq<char>| #[trigger]
                text_views(done@).contains(s) <==> is_summarised(now, l, s) by {
                lemma_summarised_step(ss, i as int, l, s);
                lemma_push_contains(text_views(had), ss[i as int].session_id, s);
            }
        }
        i = i + 1;
    }
    proof {
        assert(ss.take(ss.len() as int) =~= ss);
    }
    match listing {
        Some(list) => push_gaps(&mut slots, list, &done, summaries),
        None => {
            proof {
                assert(rows_of(slots@) + Seq::<Row>::empty() =~= rows_of(slots@));
            }
        },
    }
    slots
}

/// What a pushed sequence contains.
proof fn lemma_push_contains(list: Seq<Seq<char>>, x: Seq<char>, s: Seq<char>)
    ensures
        list.push(x).contains(s) <==> list.contains(s) || s == x,
{
    if list.contains(s) {
        let i = choose|i: int| 0 <= i < list.len() && list[i] == s;
        assert(list.push(x)[i] == s);
    }
    assert(list.push(x)[list.len() as int] == x);
    if list.push(x).contains(s) && s != x {
        let i = choose|i: int| 0 <= i < list.push(x).len() && list.push(x)[i] == s;
        assert(list[i] == s);
    }
}

/// One more summary adds its session, if it counts.
proof fn lemma_summarised_step(
    ss: Seq<Summary>,
    i: int,
    l: Option<Seq<(Seq<char>, i64)>>,
    s: Seq<char>,
)
    requires
        0 <= i < ss.len(),
    ensures
        is_summarised(ss.take(i + 1), l, s) <==> is_summarised(ss.take(i), l, s) || (
        ss[i].session_id == s && is_current(ss[i], l)),
{
    let a = ss.take(i);
    let b = ss.take(i + 1);
    if is_summarised(a, l, s) {
        let j = choose|j: int|
            0 <= j < a.len() && (#[trigger] a[j]).session_id == s && is_current(a[j], l);
        assert(b[j] == a[j]);
    }
    if is_summarised(b, l, s) {
        let j = choose|j: int|
            0 <= j < b.len() && (#[trigger] b[j]).session_id == s && is_current(b[j], l);
        if j < i {
            assert(a[j] == b[j]);
        }
    }
    assert(b[i] == ss[i]);
}

/// A page of rows, newest first.
pub open spec fn row_page(rows: Seq<Row>, limit: Option<usize>, offset: usize) -> Seq<Row> {
    paged(sorted_desc(rows, |x: Row| x.mtime as int), limit, offset)
}

/// A page of slots, newest first.
///
/// The page is cut before gaps are filled, so that no more sessions are
/// loaded than the page holds.
pub fn page_slots(slots: Vec<ListSlot>, limit: Option<usize>, offset: usize) -> (r: Vec<ListSlot>)
    ensures
        rows_of(r@) == row_page(rows_of(slots@), limit, offset),
{
    proof {
        let s = slots@;
        let view = |x: ListSlot| x@;
        let key = |x: ListSlot| x.rank_of();
        crate::sessions::sorting::lemma_sorted_views(s, key, view, |x: Row| x.mtime as int);
        let t = sorted_desc(s, key);
        assert(rows_of(t) =~= Seq::new(t.len(), |i: int| view(t[i])));
        assert(rows_of(s) =~= Seq::new(s.len(), |i: int| view(s[i])));
        assert(rows_of(paged(t, limit, offset)) =~= paged(rows_of(t), limit, offset));
    }
    page(sort_desc(slots), limit, offset)
}

/// The gaps on a page.
pub open spec fn gaps(rows: Seq<Row>) -> Seq<(Seq<char>, i64)>
    decreases rows.len(),
{
    if rows.len() == 0 {
        Seq::empty()
    } else {
        let before = gaps(rows.drop_last());
        if rows.last().info is None {
            before.push((rows.last().session_id, rows.last().mtime))
        } else {
            before
        }
    }
}

/// The sessions to load for a page.
pub fn slots_to_fill(page: &Vec<ListSlot>) -> (r: Vec<SessionStoreListEntry>)
    ensures
        listing_views(r@) == gaps(rows_of(page@)),
{
    let ghost all = rows_of(page@);
    let mut out: Vec<SessionStoreListEntry> = Vec::new();
    let mut i: usize = 0;
    proof {
        assert(listing_views(out@) =~= gaps(all.take(0)));
    }
    while i < page.len()
        invariant
            all == rows_of(page@),
            i <= page@.len(),
            listing_views(out@) == gaps(all.take(i as int)),
        decreases page@.len() - i,
    {
        let ghost were = out@;
        proof {
            assert(all.take(i as int + 1).drop_last() =~= all.take(i as int));
            assert(all.take(i as int + 1).last() == page@[i as int]@);
        }
        if page[i].info.is_none() {
            out.push(
                SessionStoreListEntry {
                    session_id: page[i].session_id.clone(),
                    mtime: page[i].mtime,
                },
            );
            proof {
                assert(listing_views(out@) =~= listing_views(were).push(
                    (all[i as int].session_id, all[i as int].mtime),
                ));
            }
        }
        i = i + 1;
    }
    proof {
        assert(all.take(all.len() as int) =~= all);
    }
    out
}

/// What is known of a session: the last of several infos counts.
pub open spec fn info_for(infos: Seq<Info>, session_id: Seq<char>) -> Option<Info>
    decreases infos.len(),
{
    if infos.len() == 0 {
        None
    } else if infos.last().session_id == session_id {
        Some(infos.last())
    } else {
        info_for(infos.drop_last(), session_id)
    }
}

/// What is known of a session.
pub fn find_info<'a>(infos: &'a Vec<SDKSessionInfo>, session_id: &str) -> (r: Option<
    &'a SDKSessionInfo,
>)
    ensures
        match r {
            Some(x) => info_for(info_views(infos@), session_id@) == Some(x@),
            None => info_for(info_views(infos@), session_id@) is None,
        },
{
    let ghost all = info_views(infos@);
    let mut i: usize = infos.len();
    proof {
        assert(all.take(i as int) =~= all);
    }
    while i > 0
        invariant
            all == info_views(infos@),
            i <= infos@.len(),
            info_for(all, session_id@) == info_for(all.take(i as int), session_id@),
        decreases i,
    {
        i = i - 1;
        proof {
            assert(all.take(i as int + 1).drop_last() =~= all.take(i as int));
            assert(all.take(i as int + 1).last() == infos@[i as int]@);
        }
        if same(&infos[i].session_id, session_id) {
            return Some(&infos[i]);
        }
    }
    proof {
        assert(all.take(0) =~= Seq::<Info>::empty());
    }
    None
}

/// What a row shows, once the gaps were loaded.
pub open spec fn row_info(row: Row, loaded: Seq<Info>) -> Option<Info> {
    match row.info {
        Some(x) => Some(x),
        None => info_for(loaded, row.session_id),
    }
}

/// What a page shows. Rows of which nothing is known are left out.
pub open spec fn filled(rows: Seq<Row>, loaded: Seq<Info>) -> Seq<Info>
    decreases rows.len(),
{
    if rows.len() == 0 {
        Seq::empty()
    } else {
        let before = filled(rows.drop_last(), loaded);
        match row_info(rows.last(), loaded) {
            Some(x) => before.push(x),
            None => before,
        }
    }
}

/// The infos of a page: the resolved ones, and those that were loaded for the
/// gaps. Gaps for which nothing was loaded are left out.
pub fn fill_slots(page: &Vec<ListSlot>, loaded: &Vec<SDKSessionInfo>) -> (r: Vec<SDKSessionInfo>)
    ensures
        info_views(r@) == filled(rows_of(page@), info_views(loaded@)),
{
    let ghost all = rows_of(page@);
    let ghost infos = info_views(loaded@);
    let mut out: Vec<SDKSessionInfo> = Vec::new();
    let mut i: usize = 0;
    proof {
        assert(info_views(out@) =~= filled(all.take(0), infos));
    }
    while i < page.len()
        invariant
            all == rows_of(page@),
            infos == info_views(loaded@),
            i <= page@.len(),
            info_views(out@) == filled(all.take(i as int), infos),
        decreases page@.len() - i,
    {
        let ghost were = out@;
        proof {
            assert(all.take(i as int + 1).drop_last() =~= all.take(i as int));
            assert(all.take(i as int + 1).last() == page@[i as int]@);
        }
        let found: Option<&SDKSessionInfo> = match &page[i].info {
            Some(x) => Some(x),
            None => find_info(loaded, &page[i].session_id),
        };
        match found {
            Some(x) => {
                out.push(x.clone());
                proof {
                    assert(info_views(out@) =~= info_views(were).push(x@));
                }
            },
            None => {},
        }
        i = i + 1;
    }
    proof {
        assert(all.take(all.len() as int) =~= all);
    }
    out
}

/// How the load of a session's entries ended.
#[derive(Debug)]
pub enum LoadOutcome {
    /// The store failed.
    Failed,
    /// The store knows nothing of the session.
    Missing,
    /// The entries of the session.
    Loaded(Vec<SessionStoreEntry>),
}

/// The contents of a [`LoadOutcome`].
pub ghost enum Outcome {
    Failed,
    Missing,
    Loaded(Seq<Members>),
}

impl View for LoadOutcome {
    type V = Outcome;

    open spec fn view(&self) -> Outcome {
        match self {
            LoadOutcome::Failed => Outcome::Failed,
            LoadOutcome::Missing => Outcome::Missing,
            LoadOutcome::Loaded(es) => Outcome::Loaded(member_lists(es@)),
        }
    }
}

/// The contents of outcomes.
pub open spec fn outcome_views(v: Seq<LoadOutcome>) -> Seq<Outcome> {
    Seq::new(v.len(), |i: int| v[i]@)
}

/// What a load tells about a session. A store that fails gives a bare row
/// instead of failing the whole list.
pub open spec fn outcome_info(
    session_id: Seq<char>,
    mtime: i64,
    outcome: Outcome,
    project_path: Seq<char>,
) -> Option<Info> {
    match outcome {
        Outcome::Failed => Some(bare_info(session_id, mtime)),
        Outcome::Missing => None,
        Outcome::Loaded(es) => stored_info(session_id, es, mtime, project_path),
    }
}

/// What the loads of the first `n` listed sessions tell.
pub open spec fn derived_infos(
    listing: Seq<(Seq<char>, i64)>,
    outcomes: Seq<Outcome>,
    project_path: Seq<char>,
    n: int,
) -> Seq<Info>
    decreases n,
{
    if n <= 0 {
        Seq::empty()
    } else {
        let before = derived_infos(listing, outcomes, project_path, n - 1);
        match outcome_info(listing[n - 1].0, listing[n - 1].1, outcomes[n - 1], project_path) {
            Some(x) => before.push(x),
            None => before,
        }
    }
}

/// What a load tells about a session.
pub fn info_of_outcome(
    session_id: &str,
    mtime: i64,
    outcome: &LoadOutcome,
    project_path: &str,
) -> (r: Option<SDKSessionInfo>)
    ensures
        info_view(r) == outcome_info(session_id@, mtime, outcome@, project_path@),
{
    match outcome {
        LoadOutcome::Failed => {
            let mut info = SDKSessionInfo::default();
            info.session_id = session_id.to_owned();
            info.last_modified = mtime;
            Some(info)
        },
        LoadOutcome::Missing => None,
        LoadOutcome::Loaded(entries) => info_of_entries(session_id, entries, mtime, project_path),
    }
}

/// What the loads of listed sessions tell, in the order of the listing.
pub fn derive_infos(
    listing: &Vec<SessionStoreListEntry>,
    outcomes: &Vec<LoadOutcome>,
    project_path: &str,
) -> (r: Vec<SDKSessionInfo>)
    requires
        outcomes@.len() == listing@.len(),
    ensures
        info_views(r@) == derived_infos(
            listing_views(listing@),
            outcome_views(outcomes@),
            project_path@,
            listing@.len() as int,
        ),
{
    let ghost l = listing_views(listing@);
    let ghost os = outcome_views(outcomes@);
    let mut out: Vec<SDKSessionInfo> = Vec::new();
    let mut i: usize = 0;
    proof {
        assert(info_views(out@) =~= derived_infos(l, os, project_path@, 0));
    }
    while i < listing.len()
        invariant
            l == listing_views(listing@),
            os == outcome_views(outcomes@),
            outcomes@.len() == listing@.len(),
            i <= listing@.len(),
            info_views(out@) == derived_infos(l, os, project_path@, i as int),
        decreases listing@.len() - i,
    {
        let ghost were = out@;
        proof {
            assert(l[i as int] == (listing@[i as int].session_id@, listing@[i as int].mtime));
            assert(os[i as int] == outcomes@[i as int]@);
        }
        match info_of_outcome(
            &listing[i].session_id,
            listing[i].mtime,
            &outcomes[i],
            project_path,
        ) {
            Some(x) => {
                out.push(x);
                proof {
                    assert(info_views(out@) =~= info_views(were).push(x@));
                }
            },
            None => {},
        }
        i = i + 1;
    }
    out
}

/// The page of a listing with one load for each session.
pub fn list_loaded_sessions(
    listing: &Vec<SessionStoreListEntry>,
    outcomes: &Vec<LoadOutcome>,
    project_path: &str,
    limit: Option<usize>,
    offset: usize,
) -> (r: Vec<SDKSessionInfo>)
    requires
        outcomes@.len() == listing@.len(),
    ensures
        info_views(r@) == paged(
            newest_first(
                derived_infos(
                    listing_views(listing@),
                    outcome_views(outcomes@),
                    project_path@,
                    listing@.len() as int,
                ),
            ),
            limit,
            offset,
        ),
{
    apply_sort_limit_offset(derive_infos(listing, outcomes, project_path), limit, offset)
}

/// The page of a listing from summaries, with its gaps.
pub fn summary_page(
    summaries: &Vec<SessionSummaryEntry>,
    listing: Option<&Vec<SessionStoreListEntry>>,
    project_path: &str,
    limit: Option<usize>,
    offset: usize,
) -> (r: Vec<ListSlot>)
    ensures
        rows_of(r@) == row_page(
            list_rows(summary_views(summaries@), listing_view(listing), project_path@),
            limit,
            offset,
        ),
{
    page_slots(build_summary_slots(summaries, listing, project_path), limit, offset)
}

/// What a page shows, given how the loads for its gaps ended.
pub open spec fn completed(
    rows: Seq<Row>,
    outcomes: Seq<Outcome>,
    project_path: Seq<char>,
) -> Seq<Info> {
    filled(rows, derived_infos(gaps(rows), outcomes, project_path, gaps(rows).len() as int))
}

/// What a page shows, given how the loads for its gaps ended, in the order of
/// [`slots_to_fill`]. `None` where there is not one outcome for each gap.
pub fn complete_page(
    page: &Vec<ListSlot>,
    outcomes: &Vec<LoadOutcome>,
    project_path: &str,
) -> (r: Option<Vec<SDKSessionInfo>>)
    ensures
        match r {
            Some(infos) => outcomes@.len() == gaps(rows_of(page@)).len() && info_views(infos@)
                == completed(rows_of(page@), outcome_views(outcomes@), project_path@),
            None => outcomes@.len() != gaps(rows_of(page@)).len(),
        },
{
    let listing = slots_to_fill(page);
    proof {
        assert(listing_views(listing@).len() == listing@.len());
    }
    if outcomes.len() != listing.len() {
        return None;
    }
    Some(fill_slots(page, &derive_infos(&listing, outcomes, project_path)))
}

// ---------------------------------------------------------------------------
// Laws of listings
// ---------------------------------------------------------------------------

/// Gaps are rows without an info.
proof fn lemma_gaps(rows: Seq<Row>)
    ensures
        gaps(rows).len() <= rows.len(),
        (forall|i: int| 0 <= i < rows.len() ==> (#[trigger] rows[i]).info is Some) ==> gaps(
            rows,
        ).len() == 0,
    decreases rows.len(),
{
    if rows.len() > 0 {
        let front = rows.drop_last();
        lemma_gaps(front);
        if forall|i: int| 0 <= i < rows.len() ==> (#[trigger] rows[i]).info is Some {
            assert forall|i: int| 0 <= i < front.len() implies (#[trigger] front[i]).info is Some by {
                assert(front[i] == rows[i]);
            }
            assert(rows.last() == rows[rows.len() - 1]);
        }
    }
}

/// No more sessions are loaded for a page than the page may hold.
pub proof fn law_loads_fit_the_page(rows: Seq<Row>, limit: usize, offset: usize)
    requires
        limit > 0,
    ensures
        gaps(row_page(rows, Some(limit), offset)).len() <= limit,
{
    lemma_gaps(row_page(rows, Some(limit), offset));
}

/// Every row of summaries is resolved.
proof fn lemma_summary_rows(
    ss: Seq<Summary>,
    l: Option<Seq<(Seq<char>, i64)>>,
    project_path: Seq<char>,
)
    ensures
        forall|i: int|
            0 <= i < summary_rows(ss, l, project_path).len() ==> (#[trigger] summary_rows(
                ss,
                l,
                project_path,
            )[i]).info is Some && is_summarised(
                ss,
                l,
                summary_rows(ss, l, project_path)[i].session_id,
            ),
    decreases ss.len(),
{
    if ss.len() > 0 {
        lemma_summary_rows(ss.drop_last(), l, project_path);
        let rows = summary_rows(ss, l, project_path);
        let before = summary_rows(ss.drop_last(), l, project_path);
        assert(ss.take(ss.len() - 1) =~= ss.drop_last());
        assert(ss.take(ss.len() as int) =~= ss);
        assert forall|i: int| 0 <= i < rows.len() implies (#[trigger] rows[i]).info is Some
            && is_summarised(ss, l, rows[i].session_id) by {
            lemma_summarised_step(ss, ss.len() - 1, l, rows[i].session_id);
            if i < before.len() {
                assert(rows[i] == before[i]);
            }
        }
    }
}

/// Without uncovered sessions there are no gaps.
proof fn lemma_no_gap_rows(
    listing: Seq<(Seq<char>, i64)>,
    ss: Seq<Summary>,
    all: Option<Seq<(Seq<char>, i64)>>,
)
    requires
        forall|i: int| 0 <= i < listing.len() ==> is_summarised(ss, all, (#[trigger] listing[i]).0),
    ensures
        gap_rows(listing, ss, all).len() == 0,
    decreases listing.len(),
{
    if listing.len() > 0 {
        let front = listing.drop_last();
        assert forall|i: int| 0 <= i < front.len() implies is_summarised(
            ss,
            all,
            (#[trigger] front[i]).0,
        ) by {
            assert(front[i] == listing[i]);
        }
        lemma_no_gap_rows(front, ss, all);
        assert(listing.last() == listing[listing.len() - 1]);
    }
}

/// Where every listed session has a summary that counts, a page is listed
/// without a single load.
pub proof fn law_complete_summaries_need_no_loads(
    summaries: Seq<Summary>,
    listing: Seq<(Seq<char>, i64)>,
    project_path: Seq<char>,
    limit: Option<usize>,
    offset: usize,
)
    requires
        forall|i: int|
            0 <= i < listing.len() ==> is_summarised(
                summaries,
                Some(listing),
                (#[trigger] listing[i]).0,
            ),
    ensures
        gaps(row_page(list_rows(summaries, Some(listing), project_path), limit, offset)).len() == 0,
{
    let rows = list_rows(summaries, Some(listing), project_path);
    let key = |x: Row| x.mtime as int;
    let sorted = sorted_desc(rows, key);
    let shown = row_page(rows, limit, offset);
    lemma_no_gap_rows(listing, summaries, Some(listing));
    lemma_summary_rows(summaries, Some(listing), project_path);
    law_sorted_desc(rows, key);
    assert forall|i: int| 0 <= i < shown.len() implies (#[trigger] shown[i]).info is Some by {
        assert(exists|j: int| 0 <= j < sorted.len() && sorted[j] == shown[i]) by {
            let j = offset + i;
            assert(sorted[j] == shown[i]);
        }
        let x = shown[i];
        assert(sorted.contains(x));
        sorted.to_multiset_ensures();
        rows.to_multiset_ensures();
        assert(sorted.to_multiset().count(x) > 0);
        assert(rows.contains(x));
        let k = choose|k: int| 0 <= k < rows.len() && rows[k] == x;
        assert(rows[k] == summary_rows(summaries, Some(listing), project_path)[k]);
    }
    lemma_gaps(shown);
}

/// A listing shows no session twice, if neither the summaries nor the store's
/// own listing hold one twice.
pub proof fn law_listing_shows_each_session_once(
    summaries: Seq<Summary>,
    listing: Seq<(Seq<char>, i64)>,
    project_path: Seq<char>,
)
    requires
        forall|i: int, j: int|
            0 <= i < j < summaries.len() ==> (#[trigger] summaries[i]).session_id != (
            #[trigger] summaries[j]).session_id,
        forall|i: int, j: int|
            0 <= i < j < listing.len() ==> (#[trigger] listing[i]).0 != (#[trigger] listing[j]).0,
    ensures
        forall|i: int, j: int|
            0 <= i < j < list_rows(summaries, Some(listing), project_path).len() ==> (
            #[trigger] list_rows(summaries, Some(listing), project_path)[i]).session_id != (
            #[trigger] list_rows(summaries, Some(listing), project_path)[j]).session_id,
{
    let all = Some(listing);
    let a = summary_rows(summaries, all, project_path);
    let b = gap_rows(listing, summaries, all);
    let rows = list_rows(summaries, all, project_path);
    lemma_summary_rows(summaries, all, project_path);
    lemma_summary_rows_distinct(summaries, all, project_path);
    lemma_gap_rows(listing, summaries, all);
    assert forall|i: int, j: int| 0 <= i < j < rows.len() implies (#[trigger] rows[i]).session_id
        != (#[trigger] rows[j]).session_id by {
        if j < a.len() {
            assert(rows[i] == a[i] && rows[j] == a[j]);
        } else if i < a.len() {
            assert(rows[i] == a[i] && rows[j] == b[j - a.len()]);
        } else {
            assert(rows[i] == b[i - a.len()] && rows[j] == b[j - a.len()]);
        }
    }
}

/// The rows of different summaries are on different sessions.
proof fn lemma_summary_rows_distinct(
    ss: Seq<Summary>,
    l: Option<Seq<(Seq<char>, i64)>>,
    project_path: Seq<char>,
)
    requires
        forall|i: int, j: int|
            0 <= i < j < ss.len() ==> (#[trigger] ss[i]).session_id != (
            #[trigger] ss[j]).session_id,
    ensures
        forall|i: int, j: int|
            0 <= i < j < summary_rows(ss, l, project_path).len() ==> (#[trigger] summary_rows(
                ss,
                l,
                project_path,
            )[i]).session_id != (#[trigger] summary_rows(ss, l, project_path)[j]).session_id,
    decreases ss.len(),
{
    if ss.len() > 0 {
        let front = ss.drop_last();
        assert forall|i: int, j: int| 0 <= i < j < front.len() implies (
        #[trigger] front[i]).session_id != (#[trigger] front[j]).session_id by {
            assert(front[i] == ss[i] && front[j] == ss[j]);
        }
        lemma_summary_rows_distinct(front, l, project_path);
        lemma_summary_rows(front, l, project_path);
        let rows = summary_rows(ss, l, project_path);
        let before = summary_rows(front, l, project_path);
        assert forall|i: int, j: int| 0 <= i < j < rows.len() implies (
        #[trigger] rows[i]).session_id != (#[trigger] rows[j]).session_id by {
            assert(rows[i] == before[i]);
            if j < before.len() {
                assert(rows[j] == before[j]);
            } else {
                let k = choose|k: int|
                    0 <= k < front.len() && (#[trigger] front[k]).session_id == before[i].session_id
                        && is_current(front[k], l);
                assert(ss[k] == front[k]);
                assert(ss[ss.len() - 1] == ss.last());
            }
        }
    }
}

/// The gaps of a listing without repetition are on different sessions, none
/// of which has a summary that counts.
proof fn lemma_gap_rows(
    listing: Seq<(Seq<char>, i64)>,
    ss: Seq<Summary>,
    all: Option<Seq<(Seq<char>, i64)>>,
)
    requires
        forall|i: int, j: int|
            0 <= i < j < listing.len() ==> (#[trigger] listing[i]).0 != (#[trigger] listing[j]).0,
    ensures
        forall|i: int, j: int|
            0 <= i < j < gap_rows(listing, ss, all).len() ==> (#[trigger] gap_rows(
                listing,
                ss,
                all,
            )[i]).session_id != (#[trigger] gap_rows(listing, ss, all)[j]).session_id,
        forall|i: int|
            0 <= i < gap_rows(listing, ss, all).len() ==> !is_summarised(
                ss,
                all,
                (#[trigger] gap_rows(listing, ss, all)[i]).session_id,
            ) && exists|k: int|
                0 <= k < listing.len() && (#[trigger] listing[k]).0 == gap_rows(
                    listing,
                    ss,
                    all,
                )[i].session_id,
    decreases listing.len(),
{
    if listing.len() > 0 {
        let front = listing.drop_last();
        assert forall|i: int, j: int| 0 <= i < j < front.len() implies (#[trigger] front[i]).0 != (
        #[trigger] front[j]).0 by {
            assert(front[i] == listing[i] && front[j] == listing[j]);
        }
        lemma_gap_rows(front, ss, all);
        let rows = gap_rows(listing, ss, all);
        let before = gap_rows(front, ss, all);
        assert(listing[listing.len() - 1] == listing.last());
        assert forall|i: int| 0 <= i < rows.len() implies !is_summarised(
            ss,
            all,
            (#[trigger] rows[i]).session_id,
        ) && exists|k: int|
            0 <= k < listing.len() && (#[trigger] listing[k]).0 == rows[i].session_id by {
            if i < before.len() {
                assert(rows[i] == before[i]);
                let k = choose|k: int|
                    0 <= k < front.len() && (#[trigger] front[k]).0 == before[i].session_id;
                assert(listing[k] == front[k]);
            }
        }
        assert forall|i: int, j: int| 0 <= i < j < rows.len() implies (
        #[trigger] rows[i]).session_id != (#[trigger] rows[j]).session_id by {
            assert(rows[i] == before[i]);
            if j < before.len() {
                assert(rows[j] == before[j]);
            } else {
                let k = choose|k: int|
                    0 <= k < front.len() && (#[trigger] front[k]).0 == before[i].session_id;
                assert(listing[k] == front[k]);
            }
        }
    }
}

// ---------------------------------------------------------------------------
// Messages and subagents
// ---------------------------------------------------------------------------

/// The entries that a load gave, none where it gave nothing.
pub open spec fn entries_or_none(entries: Option<&Vec<SessionStoreEntry>>) -> Seq<Members> {
    match entries {
        Some(list) => member_lists(list@),
        None => Seq::empty(),
    }
}

/// The messages of the conversation in a session's loaded entries. None where
/// nothing was loaded or the identifier is no UUID.
pub fn messages_from_entries(
    session_id: &str,
    entries: Option<&Vec<SessionStoreEntry>>,
    limit: Option<usize>,
    offset: usize,
) -> (r: Vec<SessionMessage>)
    ensures
        is_uuid(session_id@) && entries_or_none(entries).len() > 0 ==> message_views(r@) == paged(
            visible_messages(conversation(transcript_only(entries_or_none(entries)))),
            limit,
            offset,
        ),
        !is_uuid(session_id@) || entries_or_none(entries).len() == 0 ==> r@.len() == 0,
{
    if validate_uuid(session_id).is_none() {
        return Vec::new();
    }
    match entries {
        Some(list) => {
            if list.len() == 0 {
                return Vec::new();
            }
            entries_to_session_messages(&filter_transcript_entries(list), limit, offset)
        },
        None => Vec::new(),
    }
}

/// The last component of a subpath.
pub open spec fn last_component(subpath: Seq<char>) -> Seq<char> {
    split_on(subpath, '/').last()
}

/// The last component of a subpath.
pub fn file_component(subpath: &str) -> (r: String)
    ensures
        r@ == last_component(subpath@),
{
    let pieces = split(subpath, '/');
    proof {
        crate::text::law_join_undoes_split(subpath@, '/');
        assert(text_views(pieces@).len() == pieces@.len());
        assert(text_views(pieces@).last() == pieces@.last()@);
    }
    pieces[pieces.len() - 1].clone()
}

/// The subagent whose transcript stands at a subpath.
pub open spec fn subagent_at(subpath: Seq<char>) -> Option<Seq<char>> {
    if "subagents/"@.is_prefix_of(subpath) {
        after_prefix(last_component(subpath), "agent-"@)
    } else {
        None
    }
}

/// The subagent whose transcript stands at a subpath.
pub fn subagent_of_subpath(subpath: &str) -> (r: Option<String>)
    ensures
        text_view(r) == subagent_at(subpath@),
{
    if !starts_with(subpath, "subagents/") {
        return None;
    }
    strip_prefix(&file_component(subpath), "agent-")
}

/// The subagents at subpaths, each once, in the order of their first subpath.
pub open spec fn subagents_at(subpaths: Seq<Seq<char>>) -> Seq<Seq<char>>
    decreases subpaths.len(),
{
    if subpaths.len() == 0 {
        Seq::empty()
    } else {
        let before = subagents_at(subpaths.drop_last());
        match subagent_at(subpaths.last()) {
            Some(id) if !before.contains(id) => before.push(id),
            _ => before,
        }
    }
}

/// The subagents at the subpaths of a session.
pub fn subagent_ids(subkeys: &Vec<String>) -> (r: Vec<String>)
    ensures
        text_views(r@) == subagents_at(text_views(subkeys@)),
{
    let ghost all = text_views(subkeys@);
    let mut out: Vec<String> = Vec::new();
    let mut i: usize = 0;
    proof {
        assert(text_views(out@) =~= subagents_at(all.take(0)));
    }
    while i < subkeys.len()
        invariant
            all == text_views(subkeys@),
            i <= subkeys@.len(),
            text_views(out@) == subagents_at(all.take(i as int)),
        decreases subkeys@.len() - i,
    {
        let ghost were = out@;
        proof {
            assert(all.take(i as int + 1).drop_last() =~= all.take(i as int));
            assert(all.take(i as int + 1).last() == subkeys@[i as int]@);
        }
        match subagent_of_subpath(&subkeys[i]) {
            Some(id) => {
                if !list_has(&out, &id) {
                    out.push(id);
                    proof {
                        assert(text_views(out@) =~= text_views(were).push(id@));
                    }
                }
            },
            None => {},
        }
        i = i + 1;
    }
    proof {
        assert(all.take(all.len() as int) =~= all);
    }
    out
}

/// Every subagent with a transcript is listed, and each once.
pub proof fn law_subagents_are_listed_once(subpaths: Seq<Seq<char>>)
    ensures
        forall|id: Seq<char>| #[trigger]
            subagents_at(subpaths).contains(id) <==> exists|i: int|
                0 <= i < subpaths.len() && subagent_at(#[trigger] subpaths[i]) == Some(id),
        forall|i: int, j: int|
            0 <= i < j < subagents_at(subpaths).len() ==> #[trigger] subagents_at(subpaths)[i]
                != #[trigger] subagents_at(subpaths)[j],
    decreases subpaths.len(),
{
    if subpaths.len() > 0 {
        let front = subpaths.drop_last();
        law_subagents_are_listed_once(front);
        let before = subagents_at(front);
        let all = subagents_at(subpaths);
        let last = subagent_at(subpaths.last());
        assert(subpaths[subpaths.len() - 1] == subpaths.last());
        assert forall|id: Seq<char>| #[trigger] all.contains(id) <==> exists|i: int|
            0 <= i < subpaths.len() && subagent_at(#[trigger] subpaths[i]) == Some(id) by {
            if last is Some {
                lemma_push_contains(before, last->0, id);
            }
            if before.contains(id) {
                let i = choose|i: int|
                    0 <= i < front.len() && subagent_at(#[trigger] front[i]) == Some(id);
                assert(subpaths[i] == front[i]);
            }
            if exists|i: int|
                0 <= i < subpaths.len() && subagent_at(#[trigger] subpaths[i]) == Some(id) {
                let i = choose|i: int|
                    0 <= i < subpaths.len() && subagent_at(#[trigger] subpaths[i]) == Some(id);
                if i < front.len() {
                    assert(front[i] == subpaths[i]);
                }
            }
        }
        assert forall|i: int, j: int| 0 <= i < j < all.len() implies #[trigger] all[i]
            != #[trigger] all[j] by {
            assert(all[i] == before[i]);
            if j < before.len() {
                assert(all[j] == before[j]);
            } else {
                assert(before.contains(all[i]));
            }
        }
    } else {
        assert forall|id: Seq<char>| #[trigger]
            subagents_at(subpaths).contains(id) <==> exists|i: int|
                0 <= i < subpaths.len() && subagent_at(#[trigger] subpaths[i]) == Some(id) by {}
    }
}

/// What a store that cannot list subkeys is answered.
pub open spec fn no_subkeys_text() -> Seq<char> {
    "session_store does not implement list_subkeys() -- cannot list subagents. Provide a store with a list_subkeys() method."@
}

/// Tells whether the subkeys of a session are worth asking for: not where the
/// identifier is no UUID, and an error where the store cannot list them.
pub fn check_subagent_listing(session_id: &str, caps: &SessionStoreCapabilities) -> (r: Result<
    bool,
    ClaudeError,
>)
    ensures
        match r {
            Ok(ask) => ask == is_uuid(session_id@) && (ask ==> caps.list_subkeys),
            Err(e) => is_uuid(session_id@) && !caps.list_subkeys && e.is_invalid_config(
                no_subkeys_text(),
            ),
        },
{
    if validate_uuid(session_id).is_none() {
        return Ok(false);
    }
    if !caps.list_subkeys {
        return Err(
            ClaudeError::InvalidConfig(
                "session_store does not implement list_subkeys() -- cannot list subagents. Provide a store with a list_subkeys() method.".to_owned(),
            ),
        );
    }
    Ok(true)
}

/// The first subpath at which a subagent's transcript stands.
pub open spec fn first_subpath_of(agent_id: Seq<char>, subpaths: Seq<Seq<char>>) -> Option<Seq<char>>
    decreases subpaths.len(),
{
    if subpaths.len() == 0 {
        None
    } else if subagent_at(subpaths[0]) == Some(agent_id) {
        Some(subpaths[0])
    } else {
        first_subpath_of(agent_id, subpaths.skip(1))
    }
}

/// The subpath of a subagent's transcript: the first of the store's subkeys
/// that fits, or the direct one where the store cannot list subkeys.
pub open spec fn subagent_subpath(
    agent_id: Seq<char>,
    subkeys: Option<Seq<Seq<char>>>,
) -> Option<Seq<char>> {
    match subkeys {
        Some(list) => first_subpath_of(agent_id, list),
        None => Some("subagents/agent-"@ + agent_id),
    }
}

/// The view of subkeys that may be missing.
pub open spec fn subkeys_view(subkeys: Option<&Vec<String>>) -> Option<Seq<Seq<char>>> {
    match subkeys {
        Some(list) => Some(text_views(list@)),
        None => None,
    }
}

/// The subpath of a subagent's transcript.
pub fn find_subagent_subpath(agent_id: &str, subkeys: Option<&Vec<String>>) -> (r: Option<String>)
    ensures
        text_view(r) == subagent_subpath(agent_id@, subkeys_view(subkeys)),
{
    match subkeys {
        Some(list) => find_subpath(agent_id, list),
        None => Some(concat("subagents/agent-", agent_id)),
    }
}

/// The first of `subkeys` at which a subagent's transcript stands.
fn find_subpath(agent_id: &str, subkeys: &Vec<String>) -> (r: Option<String>)
    ensures
        text_view(r) == first_subpath_of(agent_id@, text_views(subkeys@)),
{
    let ghost all = text_views(subkeys@);
    let mut i: usize = 0;
    proof {
        assert(all.skip(0) =~= all);
    }
    while i < subkeys.len()
        invariant
            all == text_views(subkeys@),
            i <= subkeys@.len(),
            first_subpath_of(agent_id@, all) == first_subpath_of(agent_id@, all.skip(i as int)),
        decreases subkeys@.len() - i,
    {
        proof {
            assert(all.skip(i as int)[0] == subkeys@[i as int]@);
            assert(all.skip(i as int).skip(1) =~= all.skip(i as int + 1));
        }
        match subagent_of_subpath(&subkeys[i]) {
            Some(id) => {
                if same(&id, agent_id) {
                    return Some(subkeys[i].clone());
                }
            },
            None => {},
        }
        i = i + 1;
    }
    None
}

/// The key of a subagent's transcript, where there can be one: the session's
/// identifier is a UUID, the subagent has a name, and its subpath is a valid
/// one.
pub fn subagent_key(
    project_key: &str,
    session_id: &str,
    agent_id: &str,
    subkeys: Option<&Vec<String>>,
) -> (r: Option<SessionKey>)
    ensures
        match subagent_subpath(agent_id@, subkeys_view(subkeys)) {
            Some(subpath) if is_uuid(session_id@) && agent_id@.len() > 0 && subpath_fault(
                subpath,
            ) is None => r matches Some(key) && key@ == (Key {
                project_key: project_key@,
                session_id: session_id@,
                subpath: Some(subpath),
            }),
            _ => r is None,
        },
{
    if validate_uuid(session_id).is_none() || agent_id.is_empty() {
        return None;
    }
    match find_subagent_subpath(agent_id, subkeys) {
        Some(subpath) => match SessionKey::with_subpath(project_key, session_id, &subpath) {
            Ok(key) => Some(key),
            Err(_) => None,
        },
        None => None,
    }
}

/// The messages of a subagent's loaded entries. Entries that describe the
/// subagent are no transcript entries and do not show.
pub fn subagent_messages_from_entries(
    entries: Option<&Vec<SessionStoreEntry>>,
    limit: Option<usize>,
    offset: usize,
) -> (r: Vec<SessionMessage>)
    ensures
        entries_or_none(entries).len() > 0 ==> message_views(r@) == paged(
            conversation_messages(subagent_conversation(transcript_only(entries_or_none(entries)))),
            limit,
            offset,
        ),
        entries_or_none(entries).len() == 0 ==> r@.len() == 0,
{
    match entries {
        Some(list) => {
            if list.len() == 0 {
                return Vec::new();
            }
            entries_to_subagent_messages(&filter_transcript_entries(list), limit, offset)
        },
        None => Vec::new(),
    }
}

/// A subagent that a listing of subkeys shows is found again among them.
pub proof fn law_listed_subagents_are_found(subpaths: Seq<Seq<char>>, agent_id: Seq<char>)
    requires
        subagents_at(subpaths).contains(agent_id),
    ensures
        first_subpath_of(agent_id, subpaths) matches Some(p) && subpaths.contains(p) && subagent_at(
            p,
        ) == Some(agent_id),
{
    law_subagents_are_listed_once(subpaths);
    let i = choose|i: int|
        0 <= i < subpaths.len() && subagent_at(#[trigger] subpaths[i]) == Some(agent_id);
    lemma_first_subpath(subpaths, agent_id, i);
}

/// A fitting subpath leads to a first one.
proof fn lemma_first_subpath(subpaths: Seq<Seq<char>>, agent_id: Seq<char>, i: int)
    requires
        0 <= i < subpaths.len(),
        subagent_at(subpaths[i]) == Some(agent_id),
    ensures
        first_subpath_of(agent_id, subpaths) matches Some(p) && subpaths.contains(p) && subagent_at(
            p,
        ) == Some(agent_id),
    decreases i,
{
    if subagent_at(subpaths[0]) == Some(agent_id) {
        assert(subpaths.contains(subpaths[0]));
    } else {
        let rest = subpaths.skip(1);
        assert(rest[i - 1] == subpaths[i]);
        lemma_first_subpath(rest, agent_id, i - 1);
        let p = first_subpath_of(agent_id, rest)->0;
        let k = choose|k: int| 0 <= k < rest.len() && rest[k] == p;
        assert(subpaths[k + 1] == p);
    }
}

} // verus!
