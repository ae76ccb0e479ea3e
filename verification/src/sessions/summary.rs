//! Incremental session summaries.
//!
//! [`fold_session_summary`] lets a store keep a [`SessionSummaryEntry`] for
//! each session up to date as entries are appended. Every field is set once or
//! overwritten by the last entry that has it, so no entry is ever read twice.
use serde_json::{Map as JsonMap, Value};
use vstd::prelude::*;

use crate::json::{
    bool_value, distinct_keys, field_is, flag_field, get, get_flag, get_full_text, get_list,
    get_object, get_text, has_key, int_value, json, json_ref_view, jsons, law_lookup_after_drop,
    law_lookup_after_put, list_field, lookup, member_lists, members, object_field, put,
    string_value, swap_dropped, text_field, full_text_field, Json, Members, Num,
};
use crate::sessions::key::SessionKey;
use crate::sessions::lite::or_else;
use crate::sessions::prompt::{
    classify_text, entry_text_blocks, message_texts, text_kind, PromptText, TextKind,
};
use crate::sessions::store::{info_view, Info, SDKSessionInfo, SessionStoreEntry};
use crate::text::{text_view, text_views, trim, trimmed};
use crate::time::{iso_ms, parse_iso8601_ms};

verus! {

broadcast use vstd::string::group_string_axioms;

/// Incrementally-maintained session summary sidecar.
#[derive(Debug, PartialEq, Eq)]
pub struct SessionSummaryEntry {
    /// The session identifier.
    pub session_id: String,
    /// Storage write time of the sidecar, in Unix epoch milliseconds. Set by
    /// the store, not by [`fold_session_summary`].
    pub mtime: i64,
    /// Opaque summary state. Stores persist it verbatim.
    pub data: JsonMap<String, Value>,
}

/// What a [`SessionSummaryEntry`] says.
#[verifier::ext_equal]
pub ghost struct Summary {
    pub session_id: Seq<char>,
    pub mtime: i64,
    pub data: Members,
}

impl View for SessionSummaryEntry {
    type V = Summary;

    open spec fn view(&self) -> Summary {
        Summary { session_id: self.session_id@, mtime: self.mtime, data: members(self.data) }
    }
}

impl Clone for SessionSummaryEntry {
    fn clone(&self) -> (r: Self)
        ensures
            r@ == self@,
    {
        SessionSummaryEntry {
            session_id: self.session_id.clone(),
            mtime: self.mtime,
            data: self.data.clone(),
        }
    }
}

// ---------------------------------------------------------------------------
// Folding one entry
// ---------------------------------------------------------------------------

/// The time that a timestamp field writes, white space at its ends aside.
pub open spec fn timestamp_ms(value: Option<Json>) -> Option<int> {
    match value {
        Some(Json::Str(s)) => iso_ms(trimmed(s)),
        _ => None,
    }
}

/// Parses an ISO-8601 timestamp field to Unix epoch milliseconds. Returns
/// `None` for non-strings or unparseable values.
pub fn iso_to_epoch_ms(ts: Option<&Value>) -> (r: Option<i64>)
    ensures
        match r {
            Some(ms) => timestamp_ms(json_ref_view(ts)) == Some(ms as int),
            None => timestamp_ms(json_ref_view(ts)) is None,
        },
{
    match ts {
        Some(v) => match v.as_str() {
            Some(s) => parse_iso8601_ms(&trim(s)),
            None => None,
        },
        None => None,
    }
}

/// Whether a content block is the result of a tool.
pub open spec fn is_tool_result(block: Json) -> bool {
    block matches Json::Object(o) && text_field(o, "type"@) == Some("tool_result"@)
}

/// Whether the message of an entry carries the result of a tool.
pub open spec fn carries_tool_result(e: Members) -> bool {
    match object_field(e, "message"@) {
        Some(m) => match list_field(m, "content"@) {
            Some(blocks) => exists|i: int|
                0 <= i < blocks.len() && is_tool_result(#[trigger] blocks[i]),
            None => false,
        },
        None => false,
    }
}

/// True if a `user` message content list carries a `tool_result` block.
#[verifier::loop_isolation(false)]
pub fn has_tool_result(entry: &SessionStoreEntry) -> (r: bool)
    ensures
        r == carries_tool_result(members(*entry)),
{
    let message = match get_object(entry, "message") {
        Some(m) => m,
        None => return false,
    };
    let blocks = match get_list(message, "content") {
        Some(b) => b,
        None => return false,
    };
    let ghost all = jsons(blocks@);
    let mut i: usize = 0;
    while i < blocks.len()
        invariant
            all == jsons(blocks@),
            i <= blocks@.len(),
            forall|j: int| 0 <= j < i ==> !is_tool_result(#[trigger] all[j]),
        decreases blocks@.len() - i,
    {
        proof {
            assert(all[i as int] == json(blocks@[i as int]));
        }
        match blocks[i].as_object() {
            Some(o) => {
                if field_is(o, "type", "tool_result") {
                    proof {
                        assert(is_tool_result(all[i as int]));
                    }
                    return true;
                }
            },
            None => {},
        }
        i = i + 1;
    }
    false
}

/// The summary after the texts of a message of the user: the first prompt
/// among them is kept for good, and the first slash command before it as a
/// fallback.
pub open spec fn prompt_folded(data: Members, texts: Seq<Seq<char>>) -> Members
    decreases texts.len(),
{
    if texts.len() == 0 {
        data
    } else {
        match text_kind(texts[0]) {
            TextKind::Prompt(p) => put(
                put(data, "first_prompt"@, Json::Str(p)),
                "first_prompt_locked"@,
                Json::Bool(true),
            ),
            TextKind::Command(c) => prompt_folded(
                if has_key(data, "command_fallback"@) {
                    data
                } else {
                    put(data, "command_fallback"@, Json::Str(c))
                },
                texts.skip(1),
            ),
            TextKind::Skipped => prompt_folded(data, texts.skip(1)),
        }
    }
}

/// Whether an entry can give the first prompt of a session.
pub open spec fn may_prompt(data: Members, e: Members) -> bool {
    &&& !flag_field(data, "first_prompt_locked"@)
    &&& text_field(e, "type"@) == Some("user"@)
    &&& !flag_field(e, "isMeta"@) && !flag_field(e, "isCompactSummary"@)
    &&& !carries_tool_result(e)
}

/// The summary after the side chain mark of an entry: the first entry decides.
pub open spec fn fold_sidechain(data: Members, e: Members) -> Members {
    if has_key(data, "is_sidechain"@) {
        data
    } else {
        put(data, "is_sidechain"@, Json::Bool(flag_field(e, "isSidechain"@)))
    }
}

/// The summary after the timestamp of an entry: the first one counts.
pub open spec fn fold_created(data: Members, e: Members) -> Members {
    match timestamp_ms(lookup(e, "timestamp"@)) {
        Some(ms) => if has_key(data, "created_at"@) {
            data
        } else {
            put(data, "created_at"@, Json::Number(Num::Int(ms)))
        },
        None => data,
    }
}

/// The summary after the working directory of an entry: the first one counts.
pub open spec fn fold_cwd(data: Members, e: Members) -> Members {
    match full_text_field(e, "cwd"@) {
        Some(cwd) => if has_key(data, "cwd"@) {
            data
        } else {
            put(data, "cwd"@, Json::Str(cwd))
        },
        None => data,
    }
}

/// The summary after the message of an entry.
pub open spec fn fold_prompt(data: Members, e: Members) -> Members {
    if may_prompt(data, e) {
        prompt_folded(data, message_texts(e))
    } else {
        data
    }
}

/// The summary after a text field of an entry: the last one counts.
pub open spec fn fold_text(data: Members, e: Members, src: Seq<char>, dst: Seq<char>) -> Members {
    match text_field(e, src) {
        Some(t) => put(data, dst, Json::Str(t)),
        None => data,
    }
}

/// The summary after the text fields of an entry of which the last one
/// counts.
pub open spec fn fold_texts(data: Members, e: Members) -> Members {
    fold_text(
        fold_text(
            fold_text(
                fold_text(
                    fold_text(data, e, "customTitle"@, "custom_title"@),
                    e,
                    "aiTitle"@,
                    "ai_title"@,
                ),
                e,
                "lastPrompt"@,
                "last_prompt"@,
            ),
            e,
            "summary"@,
            "summary_hint"@,
        ),
        e,
        "gitBranch"@,
        "git_branch"@,
    )
}

/// The summary after the tag of an entry of type `tag`: an empty tag or none
/// clears it.
pub open spec fn fold_tag(data: Members, e: Members) -> Members {
    if text_field(e, "type"@) == Some("tag"@) {
        match full_text_field(e, "tag"@) {
            Some(t) => put(data, "tag"@, Json::Str(t)),
            None => swap_dropped(data, "tag"@),
        }
    } else {
        data
    }
}

/// The summary after one more entry.
pub open spec fn fold_entry(data: Members, e: Members) -> Members {
    fold_tag(
        fold_texts(fold_prompt(fold_cwd(fold_created(fold_sidechain(data, e), e), e), e), e),
        e,
    )
}

/// The summary after more entries.
pub open spec fn fold_entries(data: Members, es: Seq<Members>) -> Members
    decreases es.len(),
{
    if es.len() == 0 {
        data
    } else {
        fold_entry(fold_entries(data, es.drop_last()), es.last())
    }
}

/// Whether there is a member with key `k`.
fn contains_key(m: &JsonMap<String, Value>, k: &str) -> (r: bool)
    ensures
        r == has_key(members(*m), k@),
{
    get(m, k).is_some()
}

/// Folds the first-prompt state for a single entry into `data`.
#[verifier::loop_isolation(false)]
pub fn fold_first_prompt(data: &mut JsonMap<String, Value>, entry: &SessionStoreEntry)
    ensures
        members(*final(data)) == fold_prompt(members(*old(data)), members(*entry)),
{
    if get_flag(data, "first_prompt_locked") {
        return;
    }
    if !field_is(entry, "type", "user") {
        return;
    }
    if get_flag(entry, "isMeta") || get_flag(entry, "isCompactSummary") {
        return;
    }
    if has_tool_result(entry) {
        return;
    }
    let texts = entry_text_blocks(entry);
    let ghost all = text_views(texts@);
    let ghost start = members(*data);
    let mut i: usize = 0;
    proof {
        assert(all.skip(0) =~= all);
    }
    while i < texts.len()
        invariant
            all == text_views(texts@),
            i <= texts@.len(),
            prompt_folded(start, all) == prompt_folded(members(*data), all.skip(i as int)),
        decreases texts@.len() - i,
    {
        proof {
            assert(all.skip(i as int)[0] == texts@[i as int]@);
            assert(all.skip(i as int).skip(1) =~= all.skip(i as int + 1));
        }
        match classify_text(&texts[i]) {
            PromptText::Prompt(p) => {
                let _ = data.insert("first_prompt".to_owned(), string_value(p));
                let _ = data.insert("first_prompt_locked".to_owned(), bool_value(true));
                return;
            },
            PromptText::Command(c) => {
                if !contains_key(data, "command_fallback") {
                    let _ = data.insert("command_fallback".to_owned(), string_value(c));
                }
            },
            PromptText::Skipped => {},
        }
        i = i + 1;
    }
}

/// Folds a text field of which the last one counts.
fn fold_last_wins(data: &mut JsonMap<String, Value>, entry: &SessionStoreEntry, src: &str, dst: &str)
    ensures
        members(*final(data)) == fold_text(members(*old(data)), members(*entry), src@, dst@),
{
    match get_text(entry, src) {
        Some(t) => {
            let _ = data.insert(dst.to_owned(), string_value(t.to_owned()));
        },
        None => {},
    }
}

/// Folds one entry.
fn fold_one(data: &mut JsonMap<String, Value>, entry: &SessionStoreEntry)
    ensures
        members(*final(data)) == fold_entry(members(*old(data)), members(*entry)),
{
    if !contains_key(data, "is_sidechain") {
        let _ = data.insert("is_sidechain".to_owned(), bool_value(get_flag(entry, "isSidechain")));
    }
    match iso_to_epoch_ms(get(entry, "timestamp")) {
        Some(ms) => {
            if !contains_key(data, "created_at") {
                let _ = data.insert("created_at".to_owned(), int_value(ms));
            }
        },
        None => {},
    }
    match get_full_text(entry, "cwd") {
        Some(cwd) => {
            if !contains_key(data, "cwd") {
                let _ = data.insert("cwd".to_owned(), string_value(cwd.to_owned()));
            }
        },
        None => {},
    }
    fold_first_prompt(data, entry);
    fold_last_wins(data, entry, "customTitle", "custom_title");
    fold_last_wins(data, entry, "aiTitle", "ai_title");
    fold_last_wins(data, entry, "lastPrompt", "last_prompt");
    fold_last_wins(data, entry, "summary", "summary_hint");
    fold_last_wins(data, entry, "gitBranch", "git_branch");
    if field_is(entry, "type", "tag") {
        match get_full_text(entry, "tag") {
            Some(tag) => {
                let _ = data.insert("tag".to_owned(), string_value(tag.to_owned()));
            },
            None => {
                let _ = crate::json::remove(data, "tag");
            },
        }
    }
}

/// The summary of a session after more entries.
pub open spec fn folded(
    prev: Option<Summary>,
    session_id: Seq<char>,
    es: Seq<Members>,
) -> Summary {
    match prev {
        Some(p) => Summary { session_id: p.session_id, mtime: p.mtime, data: fold_entries(p.data, es) },
        None => Summary { session_id, mtime: 0, data: fold_entries(Seq::empty(), es) },
    }
}

/// An optional summary.
pub open spec fn summary_ref_view(s: Option<&SessionSummaryEntry>) -> Option<Summary> {
    match s {
        Some(x) => Some(x@),
        None => None,
    }
}

/// Folds a batch of appended entries into the running summary for `key`.
///
/// `prev` is the previous summary for the same key (or `None` for the first
/// append). Its `mtime` is kept; a new summary has zero.
pub fn fold_session_summary(
    prev: Option<&SessionSummaryEntry>,
    key: &SessionKey,
    entries: &Vec<SessionStoreEntry>,
) -> (r: SessionSummaryEntry)
    ensures
        r@ == folded(summary_ref_view(prev), key@.session_id, member_lists(entries@)),
{
    let (session_id, mtime, start) = match prev {
        Some(p) => (p.session_id.clone(), p.mtime, p.data.clone()),
        None => (key.session_id.clone(), 0, JsonMap::new()),
    };
    let mut data = start;
    let ghost base = members(data);
    let ghost es = member_lists(entries@);
    let mut i: usize = 0;
    proof {
        assert(es.take(0) =~= Seq::<Members>::empty());
    }
    while i < entries.len()
        invariant
            es == member_lists(entries@),
            i <= entries@.len(),
            members(data) == fold_entries(base, es.take(i as int)),
        decreases entries@.len() - i,
    {
        proof {
            assert(es.take(i as int + 1).drop_last() =~= es.take(i as int));
            assert(es.take(i as int + 1).last() == members(entries@[i as int]));
        }
        fold_one(&mut data, &entries[i]);
        i = i + 1;
    }
    proof {
        assert(es.take(es.len() as int) =~= es);
    }
    SessionSummaryEntry { session_id, mtime, data }
}

// ---------------------------------------------------------------------------
// What the fold keeps
// ---------------------------------------------------------------------------

/// Folding entries in two batches is folding them in one.
pub proof fn law_fold_is_incremental(
    prev: Option<Summary>,
    session_id: Seq<char>,
    a: Seq<Members>,
    b: Seq<Members>,
)
    ensures
        folded(Some(folded(prev, session_id, a)), session_id, b) == folded(prev, session_id, a + b),
{
    let start = match prev {
        Some(p) => p.data,
        None => Seq::empty(),
    };
    lemma_fold_append(start, a, b);
}

/// Folding entries in two batches is folding them in one.
proof fn lemma_fold_append(data: Members, a: Seq<Members>, b: Seq<Members>)
    ensures
        fold_entries(fold_entries(data, a), b) == fold_entries(data, a + b),
    decreases b.len(),
{
    if b.len() == 0 {
        assert(a + b =~= a);
    } else {
        lemma_fold_append(data, a, b.drop_last());
        assert((a + b).drop_last() =~= a + b.drop_last());
    }
}

/// Whether `now` has distinct keys if `before` has, and the same value under
/// `k`.
spec fn keeps(before: Members, now: Members, k: Seq<char>) -> bool {
    lookup(now, k) == lookup(before, k) && (distinct_keys(before) ==> distinct_keys(now))
}

/// Putting a value under another key keeps the value under `k`.
proof fn lemma_put_keeps(m: Members, at: Seq<char>, v: Json, k: Seq<char>)
    requires
        at != k,
    ensures
        keeps(m, put(m, at, v), k),
{
    law_lookup_after_put(m, at, v, k);
}

/// The texts of a message keep every value but the prompts.
proof fn lemma_prompt_keeps(data: Members, texts: Seq<Seq<char>>, k: Seq<char>)
    requires
        k != "first_prompt"@,
        k != "first_prompt_locked"@,
        k != "command_fallback"@,
    ensures
        keeps(data, prompt_folded(data, texts), k),
    decreases texts.len(),
{
    if texts.len() > 0 {
        match text_kind(texts[0]) {
            TextKind::Prompt(p) => {
                let d = put(data, "first_prompt"@, Json::Str(p));
                lemma_put_keeps(data, "first_prompt"@, Json::Str(p), k);
                lemma_put_keeps(d, "first_prompt_locked"@, Json::Bool(true), k);
            },
            TextKind::Command(c) => {
                lemma_put_keeps(data, "command_fallback"@, Json::Str(c), k);
                lemma_prompt_keeps(
                    if has_key(data, "command_fallback"@) {
                        data
                    } else {
                        put(data, "command_fallback"@, Json::Str(c))
                    },
                    texts.skip(1),
                    k,
                );
            },
            TextKind::Skipped => {
                lemma_prompt_keeps(data, texts.skip(1), k);
            },
        }
    }
}

/// The keys of a summary.
spec fn summary_keys() -> Seq<Seq<char>> {
    seq![
        "is_sidechain"@,
        "created_at"@,
        "cwd"@,
        "first_prompt"@,
        "first_prompt_locked"@,
        "command_fallback"@,
        "custom_title"@,
        "ai_title"@,
        "last_prompt"@,
        "summary_hint"@,
        "git_branch"@,
        "tag"@,
    ]
}

/// The keys of a summary are twelve different texts.
proof fn lemma_all_keys_differ()
    ensures
        ({
            let keys = summary_keys();
            forall|i: int, j: int| 0 <= i < j < 12 ==> #[trigger] keys[i] != #[trigger] keys[j]
        }),
{
    reveal_strlit("is_sidechain");
    reveal_strlit("created_at");
    reveal_strlit("cwd");
    reveal_strlit("first_prompt");
    reveal_strlit("first_prompt_locked");
    reveal_strlit("command_fallback");
    reveal_strlit("custom_title");
    reveal_strlit("ai_title");
    reveal_strlit("last_prompt");
    reveal_strlit("summary_hint");
    reveal_strlit("git_branch");
    reveal_strlit("tag");
    let lengths = seq![12nat, 10, 3, 12, 19, 16, 12, 8, 11, 12, 10, 3];
    let firsts = seq!['i', 'c', 'c', 'f', 'f', 'c', 'c', 'a', 'l', 's', 'g', 't'];
    let keys = summary_keys();
    assert forall|i: int| 0 <= i < 12 implies (#[trigger] keys[i]).len() == lengths[i] && keys[i][0]
        == firsts[i] by {
    }
    assert forall|i: int, j: int| 0 <= i < j < 12 implies #[trigger] keys[i]
        != #[trigger] keys[j] by {
        assert(lengths[i] != lengths[j] || firsts[i] != firsts[j]);
    }
}

/// Whether `k` is set once: by the first entry that has something for it.
pub open spec fn is_set_once(k: Seq<char>) -> bool {
    k == "is_sidechain"@ || k == "created_at"@ || k == "cwd"@
}

/// One more entry keeps what is set once.
proof fn lemma_entry_keeps(data: Members, e: Members, k: Seq<char>)
    requires
        is_set_once(k),
        has_key(data, k),
        distinct_keys(data),
    ensures
        keeps(data, fold_entry(data, e), k),
        has_key(fold_entry(data, e), k),
{
    lemma_all_keys_differ();
    let keys = summary_keys();
    let n: int = if k == "is_sidechain"@ {
        0
    } else if k == "created_at"@ {
        1
    } else {
        2
    };
    assert(keys[n] == k);
    assert(k != keys[3] && k != keys[4] && k != keys[5] && k != keys[6] && k != keys[7] && k
        != keys[8] && k != keys[9] && k != keys[10] && k != keys[11]);
    assert(keys[0] != keys[1] && keys[0] != keys[2] && keys[1] != keys[2]);
    let d1 = fold_sidechain(data, e);
    if !has_key(data, "is_sidechain"@) {
        lemma_put_keeps(data, "is_sidechain"@, Json::Bool(flag_field(e, "isSidechain"@)), k);
    }
    let d2 = fold_created(d1, e);
    if let Some(ms) = timestamp_ms(lookup(e, "timestamp"@)) {
        if !has_key(d1, "created_at"@) {
            lemma_put_keeps(d1, "created_at"@, Json::Number(Num::Int(ms)), k);
        }
    }
    let d3 = fold_cwd(d2, e);
    if let Some(cwd) = full_text_field(e, "cwd"@) {
        if !has_key(d2, "cwd"@) {
            lemma_put_keeps(d2, "cwd"@, Json::Str(cwd), k);
        }
    }
    let d4 = fold_prompt(d3, e);
    lemma_prompt_keeps(d3, message_texts(e), k);
    let d5 = fold_text(d4, e, "customTitle"@, "custom_title"@);
    lemma_text_keeps(d4, e, "customTitle"@, "custom_title"@, k);
    let d6 = fold_text(d5, e, "aiTitle"@, "ai_title"@);
    lemma_text_keeps(d5, e, "aiTitle"@, "ai_title"@, k);
    let d7 = fold_text(d6, e, "lastPrompt"@, "last_prompt"@);
    lemma_text_keeps(d6, e, "lastPrompt"@, "last_prompt"@, k);
    let d8 = fold_text(d7, e, "summary"@, "summary_hint"@);
    lemma_text_keeps(d7, e, "summary"@, "summary_hint"@, k);
    let d9 = fold_text(d8, e, "gitBranch"@, "git_branch"@);
    lemma_text_keeps(d8, e, "gitBranch"@, "git_branch"@, k);
    if text_field(e, "type"@) == Some("tag"@) {
        match full_text_field(e, "tag"@) {
            Some(t) => lemma_put_keeps(d9, "tag"@, Json::Str(t), k),
            None => law_lookup_after_drop(d9, "tag"@, k),
        }
    }
}

/// A text field keeps the values under other keys.
proof fn lemma_text_keeps(data: Members, e: Members, src: Seq<char>, dst: Seq<char>, k: Seq<char>)
    requires
        dst != k,
    ensures
        keeps(data, fold_text(data, e, src, dst), k),
{
    if let Some(t) = text_field(e, src) {
        lemma_put_keeps(data, dst, Json::Str(t), k);
    }
}

/// Whether a session is a side chain, when it was created and where it ran do
/// not change once the summary has them, whatever is appended.
pub proof fn law_set_once_fields_stay(data: Members, es: Seq<Members>, k: Seq<char>)
    requires
        is_set_once(k),
        has_key(data, k),
        distinct_keys(data),
    ensures
        lookup(fold_entries(data, es), k) == lookup(data, k),
        distinct_keys(fold_entries(data, es)),
        has_key(fold_entries(data, es), k),
    decreases es.len(),
{
    if es.len() > 0 {
        law_set_once_fields_stay(data, es.drop_last(), k);
        lemma_entry_keeps(fold_entries(data, es.drop_last()), es.last(), k);
    }
}

// ---------------------------------------------------------------------------
// The metadata that a summary gives
// ---------------------------------------------------------------------------

/// The first prompt that a summary gives.
pub open spec fn summary_prompt(data: Members) -> Option<Seq<char>> {
    if flag_field(data, "first_prompt_locked"@) {
        full_text_field(data, "first_prompt"@)
    } else {
        full_text_field(data, "command_fallback"@)
    }
}

/// The title that a summary gives.
pub open spec fn summary_title(data: Members) -> Option<Seq<char>> {
    or_else(full_text_field(data, "custom_title"@), full_text_field(data, "ai_title"@))
}

/// The text that stands for a session: its title, its last prompt, a summary,
/// or its first prompt, whichever is the first that is not empty.
pub open spec fn summary_text(data: Members) -> Option<Seq<char>> {
    or_else(
        summary_title(data),
        or_else(
            full_text_field(data, "last_prompt"@),
            or_else(full_text_field(data, "summary_hint"@), summary_prompt(data)),
        ),
    )
}

/// The metadata that a summary gives. A side chain and a session without a
/// summary have none.
pub open spec fn summary_info(s: Summary, project_path: Option<Seq<char>>) -> Option<Info> {
    if flag_field(s.data, "is_sidechain"@) {
        None
    } else {
        match summary_text(s.data) {
            Some(summary) => Some(
                Info {
                    session_id: s.session_id,
                    summary,
                    last_modified: s.mtime,
                    file_size: None,
                    custom_title: summary_title(s.data),
                    first_prompt: summary_prompt(s.data),
                    git_branch: full_text_field(s.data, "git_branch"@),
                    cwd: or_else(full_text_field(s.data, "cwd"@), project_path),
                    tag: full_text_field(s.data, "tag"@),
                    created_at: match lookup(s.data, "created_at"@) {
                        Some(Json::Number(Num::Int(i))) => if i64::MIN <= i <= i64::MAX {
                            Some(i as i64)
                        } else {
                            None
                        },
                        _ => None,
                    },
                },
            ),
            None => None,
        }
    }
}

/// A session of which a summary tells is listed if and only if it is no side
/// chain and some text stands for it; that text is never empty.
pub proof fn law_summary_info_needs_a_text(s: Summary, project_path: Option<Seq<char>>)
    ensures
        summary_info(s, project_path) is Some <==> !flag_field(s.data, "is_sidechain"@) && (
        full_text_field(s.data, "custom_title"@) is Some || full_text_field(
            s.data,
            "ai_title"@,
        ) is Some || full_text_field(s.data, "last_prompt"@) is Some || full_text_field(
            s.data,
            "summary_hint"@,
        ) is Some || summary_prompt(s.data) is Some),
        summary_info(s, project_path) matches Some(info) ==> info.summary.len() > 0,
{
}

/// A copy of the text under a key, where it is not empty.
fn full_text_of(data: &JsonMap<String, Value>, k: &str) -> (r: Option<String>)
    ensures
        text_view(r) == full_text_field(members(*data), k@),
{
    match get_full_text(data, k) {
        Some(s) => Some(s.to_owned()),
        None => None,
    }
}

/// Converts a [`SessionSummaryEntry`] to [`SDKSessionInfo`].
///
/// Returns `None` for sidechain sessions or sessions with no extractable
/// summary.
pub fn summary_entry_to_sdk_info(entry: &SessionSummaryEntry, project_path: Option<&str>) -> (r:
    Option<SDKSessionInfo>)
    ensures
        info_view(r) == summary_info(entry@, crate::text::str_view(project_path)),
{
    let data = &entry.data;
    if get_flag(data, "is_sidechain") {
        return None;
    }
    let first_prompt = if get_flag(data, "first_prompt_locked") {
        full_text_of(data, "first_prompt")
    } else {
        full_text_of(data, "command_fallback")
    };
    let custom_title = match full_text_of(data, "custom_title") {
        Some(t) => Some(t),
        None => full_text_of(data, "ai_title"),
    };
    let summary: String = match &custom_title {
        Some(t) => t.clone(),
        None => match full_text_of(data, "last_prompt") {
            Some(t) => t,
            None => match full_text_of(data, "summary_hint") {
                Some(t) => t,
                None => match &first_prompt {
                    Some(t) => t.clone(),
                    None => return None,
                },
            },
        },
    };
    let cwd = match full_text_of(data, "cwd") {
        Some(c) => Some(c),
        None => match project_path {
            Some(p) => Some(p.to_owned()),
            None => None,
        },
    };
    let created_at = match get(data, "created_at") {
        Some(v) => v.as_i64(),
        None => None,
    };
    Some(
        SDKSessionInfo {
            session_id: entry.session_id.clone(),
            summary,
            last_modified: entry.mtime,
            file_size: None,
            custom_title,
            first_prompt,
            git_branch: full_text_of(data, "git_branch"),
            cwd,
            tag: full_text_of(data, "tag"),
            created_at,
        },
    )
}

/// What comes before the prompts in a fold keeps the values under the keys
/// behind the first three.
proof fn lemma_start_keeps(data: Members, e: Members, n: int)
    requires
        3 <= n < 12,
    ensures
        keeps(
            data,
            fold_cwd(fold_created(fold_sidechain(data, e), e), e),
            summary_keys()[n],
        ),
{
    lemma_all_keys_differ();
    let keys = summary_keys();
    let k = keys[n];
    assert(keys[0] != keys[n] && keys[1] != keys[n] && keys[2] != keys[n]);
    lemma_put_keeps(data, keys[0], Json::Bool(flag_field(e, "isSidechain"@)), k);
    let d1 = fold_sidechain(data, e);
    if let Some(ms) = timestamp_ms(lookup(e, "timestamp"@)) {
        lemma_put_keeps(d1, keys[1], Json::Number(Num::Int(ms)), k);
    }
    let d2 = fold_created(d1, e);
    if let Some(cwd) = full_text_field(e, "cwd"@) {
        lemma_put_keeps(d2, keys[2], Json::Str(cwd), k);
    }
}

/// The tag of an entry keeps the values under the other keys.
proof fn lemma_tag_keeps(data: Members, e: Members, n: int)
    requires
        0 <= n < 11,
        distinct_keys(data),
    ensures
        keeps(data, fold_tag(data, e), summary_keys()[n]),
{
    lemma_all_keys_differ();
    let keys = summary_keys();
    assert(keys[n] != keys[11]);
    if text_field(e, "type"@) == Some("tag"@) {
        match full_text_field(e, "tag"@) {
            Some(t) => lemma_put_keeps(data, keys[11], Json::Str(t), keys[n]),
            None => law_lookup_after_drop(data, keys[11], keys[n]),
        }
    }
}

/// The key in an entry for the key of a summary at place `n`, of those texts
/// of which the last one counts.
spec fn last_wins_key(n: int) -> Seq<char> {
    if n == 6 {
        "customTitle"@
    } else if n == 7 {
        "aiTitle"@
    } else if n == 8 {
        "lastPrompt"@
    } else if n == 9 {
        "summary"@
    } else {
        "gitBranch"@
    }
}

/// Whether the last text under `src` of an entry stands under `dst` in a
/// summary.
pub open spec fn is_last_wins(src: Seq<char>, dst: Seq<char>) -> bool {
    ||| src == "customTitle"@ && dst == "custom_title"@
    ||| src == "aiTitle"@ && dst == "ai_title"@
    ||| src == "lastPrompt"@ && dst == "last_prompt"@
    ||| src == "summary"@ && dst == "summary_hint"@
    ||| src == "gitBranch"@ && dst == "git_branch"@
}

/// Of the titles, the last prompt, the summary and the branch the last one
/// counts, whatever came before: an entry that has one replaces it, and any
/// other leaves it as it was.
pub proof fn law_last_text_wins(data: Members, e: Members, src: Seq<char>, dst: Seq<char>)
    requires
        distinct_keys(data),
        is_last_wins(src, dst),
    ensures
        match text_field(e, src) {
            Some(t) => text_field(fold_entry(data, e), dst) == Some(t),
            None => lookup(fold_entry(data, e), dst) == lookup(data, dst),
        },
{
    lemma_all_keys_differ();
    let keys = summary_keys();
    let n: int = if dst == keys[6] {
        6
    } else if dst == keys[7] {
        7
    } else if dst == keys[8] {
        8
    } else if dst == keys[9] {
        9
    } else {
        10
    };
    let k = keys[n];
    assert(k == dst);
    assert(last_wins_key(n) == src) by {
        assert(keys[6] != keys[7] && keys[6] != keys[8] && keys[6] != keys[9] && keys[6]
            != keys[10] && keys[7] != keys[8] && keys[7] != keys[9] && keys[7] != keys[10]
            && keys[8] != keys[9] && keys[8] != keys[10] && keys[9] != keys[10]);
    }
    assert(keys[3] != keys[n] && keys[4] != keys[n] && keys[5] != keys[n]);
    lemma_start_keeps(data, e, n);
    lemma_before_texts(data, e);
    let d3 = fold_cwd(fold_created(fold_sidechain(data, e), e), e);
    let d4 = fold_prompt(d3, e);
    lemma_prompt_keeps(d3, message_texts(e), k);
    let d5 = fold_text(d4, e, last_wins_key(6), keys[6]);
    let d6 = fold_text(d5, e, last_wins_key(7), keys[7]);
    let d7 = fold_text(d6, e, last_wins_key(8), keys[8]);
    let d8 = fold_text(d7, e, last_wins_key(9), keys[9]);
    let d9 = fold_text(d8, e, last_wins_key(10), keys[10]);
    lemma_text_step(d4, e, 6, n);
    lemma_text_step(d5, e, 7, n);
    lemma_text_step(d6, e, 8, n);
    lemma_text_step(d7, e, 9, n);
    lemma_text_step(d8, e, 10, n);
    lemma_tag_keeps(d9, e, n);
    assert(fold_entry(data, e) == fold_tag(d9, e));
}

/// One text field of an entry sets its own key and no other.
proof fn lemma_text_step(d: Members, e: Members, i: int, n: int)
    requires
        distinct_keys(d),
        6 <= i <= 10,
        6 <= n <= 10,
    ensures
        ({
            let now = fold_text(d, e, last_wins_key(i), summary_keys()[i]);
            &&& distinct_keys(now)
            &&& i != n ==> lookup(now, summary_keys()[n]) == lookup(d, summary_keys()[n])
            &&& i == n ==> match text_field(e, last_wins_key(i)) {
                Some(t) => lookup(now, summary_keys()[n]) == Some(Json::Str(t)),
                None => lookup(now, summary_keys()[n]) == lookup(d, summary_keys()[n]),
            }
        }),
{
    lemma_all_keys_differ();
    let keys = summary_keys();
    assert(i < n ==> keys[i] != keys[n]);
    assert(n < i ==> keys[n] != keys[i]);
    if let Some(t) = text_field(e, last_wins_key(i)) {
        law_lookup_after_put(d, keys[i], Json::Str(t), keys[n]);
    }
}

/// Once a summary has the first prompt, it keeps it, whatever is appended.
pub proof fn law_first_prompt_stays(data: Members, es: Seq<Members>)
    requires
        flag_field(data, "first_prompt_locked"@),
        distinct_keys(data),
    ensures
        flag_field(fold_entries(data, es), "first_prompt_locked"@),
        lookup(fold_entries(data, es), "first_prompt"@) == lookup(data, "first_prompt"@),
        summary_prompt(fold_entries(data, es)) == summary_prompt(data),
    decreases es.len(),
{
    if es.len() > 0 {
        let d = fold_entries(data, es.drop_last());
        let e = es.last();
        law_first_prompt_stays(data, es.drop_last());
        law_folded_keys_are_distinct(data, es.drop_last());
        lemma_all_keys_differ();
        let keys = summary_keys();
        let d3 = fold_cwd(fold_created(fold_sidechain(d, e), e), e);
        lemma_start_keeps(d, e, 3);
        lemma_start_keeps(d, e, 4);
        lemma_before_texts(d, e);
        assert(fold_prompt(d3, e) == d3);
        lemma_texts_keep(d3, e, 3);
        lemma_texts_keep(d3, e, 4);
        lemma_texts_distinct(d3, e);
        lemma_tag_keeps(fold_texts(d3, e), e, 3);
        lemma_tag_keeps(fold_texts(d3, e), e, 4);
    }
}

/// The text fields of an entry keep the values under the keys before theirs.
proof fn lemma_texts_keep(d: Members, e: Members, n: int)
    requires
        0 <= n < 6,
    ensures
        keeps(d, fold_texts(d, e), summary_keys()[n]),
{
    lemma_all_keys_differ();
    let keys = summary_keys();
    let k = keys[n];
    assert(keys[n] != keys[6] && keys[n] != keys[7] && keys[n] != keys[8] && keys[n] != keys[9]
        && keys[n] != keys[10]);
    let d5 = fold_text(d, e, "customTitle"@, keys[6]);
    let d6 = fold_text(d5, e, "aiTitle"@, keys[7]);
    let d7 = fold_text(d6, e, "lastPrompt"@, keys[8]);
    let d8 = fold_text(d7, e, "summary"@, keys[9]);
    lemma_text_keeps(d, e, "customTitle"@, keys[6], k);
    lemma_text_keeps(d5, e, "aiTitle"@, keys[7], k);
    lemma_text_keeps(d6, e, "lastPrompt"@, keys[8], k);
    lemma_text_keeps(d7, e, "summary"@, keys[9], k);
    lemma_text_keeps(d8, e, "gitBranch"@, keys[10], k);
}

/// Up to the texts of which the last one counts, keys stay distinct.
proof fn lemma_before_texts(data: Members, e: Members)
    requires
        distinct_keys(data),
    ensures
        distinct_keys(fold_prompt(fold_cwd(fold_created(fold_sidechain(data, e), e), e), e)),
{
    let any = "tag"@;
    reveal_strlit("tag");
    reveal_strlit("first_prompt");
    reveal_strlit("first_prompt_locked");
    reveal_strlit("command_fallback");
    assert(any[0] == 't');
    assert("first_prompt"@[0] == 'f');
    assert("first_prompt_locked"@[0] == 'f');
    assert("command_fallback"@[0] == 'c');
    law_lookup_after_put(
        data,
        "is_sidechain"@,
        Json::Bool(flag_field(e, "isSidechain"@)),
        any,
    );
    let d1 = fold_sidechain(data, e);
    if let Some(ms) = timestamp_ms(lookup(e, "timestamp"@)) {
        law_lookup_after_put(d1, "created_at"@, Json::Number(Num::Int(ms)), any);
    }
    let d2 = fold_created(d1, e);
    if let Some(cwd) = full_text_field(e, "cwd"@) {
        law_lookup_after_put(d2, "cwd"@, Json::Str(cwd), any);
    }
    let d3 = fold_cwd(d2, e);
    lemma_prompt_keeps(d3, message_texts(e), any);
}

/// Folding keeps the keys of a summary distinct.
proof fn lemma_texts_distinct(d: Members, e: Members)
    requires
        distinct_keys(d),
    ensures
        distinct_keys(fold_texts(d, e)),
{
    let d5 = fold_text(d, e, "customTitle"@, "custom_title"@);
    lemma_text_distinct(d, e, "customTitle"@, "custom_title"@);
    let d6 = fold_text(d5, e, "aiTitle"@, "ai_title"@);
    lemma_text_distinct(d5, e, "aiTitle"@, "ai_title"@);
    let d7 = fold_text(d6, e, "lastPrompt"@, "last_prompt"@);
    lemma_text_distinct(d6, e, "lastPrompt"@, "last_prompt"@);
    let d8 = fold_text(d7, e, "summary"@, "summary_hint"@);
    lemma_text_distinct(d7, e, "summary"@, "summary_hint"@);
    lemma_text_distinct(d8, e, "gitBranch"@, "git_branch"@);
}

/// A text field keeps the keys of a summary distinct.
proof fn lemma_text_distinct(d: Members, e: Members, src: Seq<char>, dst: Seq<char>)
    requires
        distinct_keys(d),
    ensures
        distinct_keys(fold_text(d, e, src, dst)),
{
    if let Some(t) = text_field(e, src) {
        law_lookup_after_put(d, dst, Json::Str(t), dst);
    }
}

/// An entry of type `tag` sets the tag, or clears it where its tag is empty or
/// absent, whatever came before it.
pub proof fn law_last_tag_wins(data: Members, e: Members)
    requires
        distinct_keys(data),
        text_field(e, "type"@) == Some("tag"@),
    ensures
        full_text_field(fold_entry(data, e), "tag"@) == full_text_field(e, "tag"@),
{
    lemma_before_texts(data, e);
    let d4 = fold_prompt(fold_cwd(fold_created(fold_sidechain(data, e), e), e), e);
    lemma_texts_distinct(d4, e);
    let d9 = fold_texts(d4, e);
    match full_text_field(e, "tag"@) {
        Some(t) => law_lookup_after_put(d9, "tag"@, Json::Str(t), "tag"@),
        None => law_lookup_after_drop(d9, "tag"@, "tag"@),
    }
}

/// A summary that was folded from entries alone has distinct keys.
pub proof fn law_folded_keys_are_distinct(data: Members, es: Seq<Members>)
    requires
        distinct_keys(data),
    ensures
        distinct_keys(fold_entries(data, es)),
    decreases es.len(),
{
    if es.len() > 0 {
        law_folded_keys_are_distinct(data, es.drop_last());
        let d = fold_entries(data, es.drop_last());
        let e = es.last();
        lemma_before_texts(d, e);
        let d4 = fold_prompt(fold_cwd(fold_created(fold_sidechain(d, e), e), e), e);
        lemma_texts_distinct(d4, e);
        let d9 = fold_texts(d4, e);
        if text_field(e, "type"@) == Some("tag"@) {
            match full_text_field(e, "tag"@) {
                Some(t) => law_lookup_after_put(d9, "tag"@, Json::Str(t), "tag"@),
                None => law_lookup_after_drop(d9, "tag"@, "tag"@),
            }
        }
    }
}

// ---------------------------------------------------------------------------
// What one more entry does
// ---------------------------------------------------------------------------

/// What comes before the prompts in a fold, under the first three keys.
proof fn lemma_start(data: Members, e: Members)
    requires
        distinct_keys(data),
    ensures
        ({
            let d = fold_cwd(fold_created(fold_sidechain(data, e), e), e);
            &&& distinct_keys(d)
            &&& lookup(d, "is_sidechain"@) == if has_key(data, "is_sidechain"@) {
                lookup(data, "is_sidechain"@)
            } else {
                Some(Json::Bool(flag_field(e, "isSidechain"@)))
            }
            &&& lookup(d, "created_at"@) == if has_key(data, "created_at"@) {
                lookup(data, "created_at"@)
            } else {
                match timestamp_ms(lookup(e, "timestamp"@)) {
                    Some(ms) => Some(Json::Number(Num::Int(ms))),
                    None => None,
                }
            }
            &&& lookup(d, "cwd"@) == if has_key(data, "cwd"@) {
                lookup(data, "cwd"@)
            } else {
                match full_text_field(e, "cwd"@) {
                    Some(c) => Some(Json::Str(c)),
                    None => None,
                }
            }
        }),
{
    lemma_all_keys_differ();
    let keys = summary_keys();
    assert(keys[0] != keys[1] && keys[0] != keys[2] && keys[1] != keys[2]);
    let side = Json::Bool(flag_field(e, "isSidechain"@));
    law_lookup_after_put(data, keys[0], side, keys[1]);
    law_lookup_after_put(data, keys[0], side, keys[2]);
    let d1 = fold_sidechain(data, e);
    if let Some(ms) = timestamp_ms(lookup(e, "timestamp"@)) {
        let v = Json::Number(Num::Int(ms));
        law_lookup_after_put(d1, keys[1], v, keys[0]);
        law_lookup_after_put(d1, keys[1], v, keys[2]);
    }
    let d2 = fold_created(d1, e);
    if let Some(cwd) = full_text_field(e, "cwd"@) {
        let v = Json::Str(cwd);
        law_lookup_after_put(d2, keys[2], v, keys[0]);
        law_lookup_after_put(d2, keys[2], v, keys[1]);
    }
}

/// What comes behind the prompts in a fold keeps the values under the keys
/// before theirs.
proof fn lemma_behind_keeps(d: Members, e: Members, n: int)
    requires
        0 <= n < 6,
        distinct_keys(d),
    ensures
        lookup(fold_tag(fold_texts(d, e), e), summary_keys()[n]) == lookup(d, summary_keys()[n]),
{
    lemma_texts_keep(d, e, n);
    lemma_texts_distinct(d, e);
    lemma_tag_keeps(fold_texts(d, e), e, n);
}

/// The first entry tells whether a session is a side chain, the first time
/// that can be read is when it was created, and the first directory is where
/// it ran. Entries behind these change nothing about them.
pub proof fn law_first_entry_counts(data: Members, e: Members)
    requires
        distinct_keys(data),
    ensures
        ({
            let d = fold_entry(data, e);
            &&& lookup(d, "is_sidechain"@) == match lookup(data, "is_sidechain"@) {
                Some(was) => Some(was),
                None => Some(Json::Bool(lookup(e, "isSidechain"@) == Some(Json::Bool(true)))),
            }
            &&& lookup(d, "created_at"@) == match lookup(data, "created_at"@) {
                Some(was) => Some(was),
                None => match lookup(e, "timestamp"@) {
                    Some(Json::Str(time)) => match iso_ms(trimmed(time)) {
                        Some(ms) => Some(Json::Number(Num::Int(ms))),
                        None => None,
                    },
                    _ => None,
                },
            }
            &&& lookup(d, "cwd"@) == match lookup(data, "cwd"@) {
                Some(was) => Some(was),
                None => match lookup(e, "cwd"@) {
                    Some(Json::Str(dir)) => if dir.len() > 0 {
                        Some(Json::Str(dir))
                    } else {
                        None
                    },
                    _ => None,
                },
            }
        }),
{
    lemma_all_keys_differ();
    let keys = summary_keys();
    let d3 = fold_cwd(fold_created(fold_sidechain(data, e), e), e);
    lemma_start(data, e);
    lemma_before_texts(data, e);
    assert forall|n: int| 0 <= n < 3 implies lookup(fold_entry(data, e), #[trigger] keys[n])
        == lookup(d3, keys[n]) by {
        assert(keys[n] != keys[3] && keys[n] != keys[4] && keys[n] != keys[5]);
        lemma_prompt_keeps(d3, message_texts(e), keys[n]);
        lemma_behind_keeps(fold_prompt(d3, e), e, n);
    }
    assert(keys[0] == "is_sidechain"@ && keys[1] == "created_at"@ && keys[2] == "cwd"@);
}

/// Of the titles, the last prompt, the summary and the branch the last one
/// counts, an empty one too. The tag is that of the last entry of type `tag`:
/// one without a tag, or with an empty one, clears it, and no other entry
/// touches it.
pub proof fn law_last_entry_counts(data: Members, e: Members)
    requires
        distinct_keys(data),
    ensures
        ({
            let d = fold_entry(data, e);
            let last = |src: Seq<char>, dst: Seq<char>|
                lookup(d, dst) == match lookup(e, src) {
                    Some(Json::Str(t)) => Some(Json::Str(t)),
                    _ => lookup(data, dst),
                };
            &&& last("customTitle"@, "custom_title"@)
            &&& last("aiTitle"@, "ai_title"@)
            &&& last("lastPrompt"@, "last_prompt"@)
            &&& last("summary"@, "summary_hint"@)
            &&& last("gitBranch"@, "git_branch"@)
            &&& lookup(d, "tag"@) == if lookup(e, "type"@) == Some(Json::Str("tag"@)) {
                match lookup(e, "tag"@) {
                    Some(Json::Str(t)) => if t.len() > 0 {
                        Some(Json::Str(t))
                    } else {
                        None
                    },
                    _ => None,
                }
            } else {
                lookup(data, "tag"@)
            }
        }),
{
    law_last_text_wins(data, e, "customTitle"@, "custom_title"@);
    law_last_text_wins(data, e, "aiTitle"@, "ai_title"@);
    law_last_text_wins(data, e, "lastPrompt"@, "last_prompt"@);
    law_last_text_wins(data, e, "summary"@, "summary_hint"@);
    law_last_text_wins(data, e, "gitBranch"@, "git_branch"@);
    lemma_before_texts(data, e);
    let d3 = fold_cwd(fold_created(fold_sidechain(data, e), e), e);
    let d4 = fold_prompt(d3, e);
    lemma_texts_distinct(d4, e);
    let d9 = fold_texts(d4, e);
    lemma_all_keys_differ();
    let keys = summary_keys();
    assert(keys[11] == "tag"@);
    if lookup(e, "type"@) == Some(Json::Str("tag"@)) {
        match full_text_field(e, "tag"@) {
            Some(t) => law_lookup_after_put(d9, "tag"@, Json::Str(t), "tag"@),
            None => law_lookup_after_drop(d9, "tag"@, "tag"@),
        }
    } else {
        lemma_start_keeps(data, e, 11);
        assert(keys[3] != keys[11] && keys[4] != keys[11] && keys[5] != keys[11]);
        lemma_prompt_keeps(d3, message_texts(e), keys[11]);
        let d5 = fold_text(d4, e, "customTitle"@, keys[6]);
        let d6 = fold_text(d5, e, "aiTitle"@, keys[7]);
        let d7 = fold_text(d6, e, "lastPrompt"@, keys[8]);
        let d8 = fold_text(d7, e, "summary"@, keys[9]);
        assert(keys[6] != keys[11] && keys[7] != keys[11] && keys[8] != keys[11] && keys[9]
            != keys[11] && keys[10] != keys[11]);
        lemma_text_keeps(d4, e, "customTitle"@, keys[6], keys[11]);
        lemma_text_keeps(d5, e, "aiTitle"@, keys[7], keys[11]);
        lemma_text_keeps(d6, e, "lastPrompt"@, keys[8], keys[11]);
        lemma_text_keeps(d7, e, "summary"@, keys[9], keys[11]);
        lemma_text_keeps(d8, e, "gitBranch"@, keys[10], keys[11]);
    }
}

/// Whether a content block says that it is the result of a tool.
pub open spec fn says_result(block: Json) -> bool {
    match block {
        Json::Object(b) => lookup(b, "type"@) == Some(Json::Str("tool_result"@)),
        _ => false,
    }
}

/// Whether an entry is a message of a user in which a prompt is looked for: it
/// is not meta, no compact summary, and carries no result of a tool.
pub open spec fn is_asked(e: Members) -> bool {
    &&& lookup(e, "type"@) == Some(Json::Str("user"@))
    &&& lookup(e, "isMeta"@) != Some(Json::Bool(true))
    &&& lookup(e, "isCompactSummary"@) != Some(Json::Bool(true))
    &&& match lookup(e, "message"@) {
        Some(Json::Object(m)) => match lookup(m, "content"@) {
            Some(Json::Array(blocks)) => forall|i: int|
                0 <= i < blocks.len() ==> !says_result(#[trigger] blocks[i]),
            _ => true,
        },
        _ => true,
    }
}

/// An entry is asked where it may prompt.
proof fn lemma_asked(data: Members, e: Members)
    ensures
        may_prompt(data, e) == (is_asked(e) && lookup(data, "first_prompt_locked"@) != Some(
            Json::Bool(true),
        )),
{
    assert(forall|block: Json| #[trigger] is_tool_result(block) == says_result(block));
    if let Some(Json::Object(m)) = lookup(e, "message"@) {
        if let Some(Json::Array(blocks)) = lookup(m, "content"@) {
            assert(object_field(e, "message"@) == Some(m));
            assert(list_field(m, "content"@) == Some(blocks));
            if carries_tool_result(e) {
                let i = choose|i: int| 0 <= i < blocks.len() && is_tool_result(#[trigger] blocks[i]);
                assert(says_result(blocks[i]));
            } else {
                assert forall|i: int| 0 <= i < blocks.len() implies !says_result(
                    #[trigger] blocks[i],
                ) by {
                    if says_result(blocks[i]) {
                        let own = list_field(object_field(e, "message"@)->0, "content"@)->0;
                        assert(own == blocks);
                        assert(is_tool_result(own[i]));
                        assert(exists|j: int| 0 <= j < own.len() && is_tool_result(#[trigger] own[j]));
                        assert(carries_tool_result(e));
                    }
                }
            }
        }
    }
    assert((text_field(e, "type"@) == Some("user"@)) == (lookup(e, "type"@) == Some(
        Json::Str("user"@),
    )));
}

/// What the texts of a message put into a summary.
proof fn lemma_prompt_put(data: Members, texts: Seq<Seq<char>>, n: int, c: int)
    requires
        distinct_keys(data),
        0 <= n <= texts.len(),
        n < texts.len() ==> text_kind(texts[n]) is Prompt,
        forall|j: int| 0 <= j < n ==> !(text_kind(#[trigger] texts[j]) is Prompt),
        0 <= c <= n,
        c < n ==> text_kind(texts[c]) is Command,
        forall|j: int| 0 <= j < c ==> !(text_kind(#[trigger] texts[j]) is Command),
    ensures
        ({
            let d = prompt_folded(data, texts);
            &&& n < texts.len() ==> lookup(d, "first_prompt"@) == Some(
                Json::Str(text_kind(texts[n])->Prompt_0),
            ) && lookup(d, "first_prompt_locked"@) == Some(Json::Bool(true))
            &&& n == texts.len() ==> lookup(d, "first_prompt"@) == lookup(data, "first_prompt"@)
                && lookup(d, "first_prompt_locked"@) == lookup(data, "first_prompt_locked"@)
            &&& lookup(d, "command_fallback"@) == match lookup(data, "command_fallback"@) {
                Some(was) => Some(was),
                None => if c < n {
                    Some(Json::Str(text_kind(texts[c])->Command_0))
                } else {
                    None
                },
            }
        }),
    decreases texts.len(),
{
    lemma_all_keys_differ();
    let keys = summary_keys();
    assert(keys[3] != keys[4] && keys[3] != keys[5] && keys[4] != keys[5]);
    if texts.len() > 0 {
        match text_kind(texts[0]) {
            TextKind::Prompt(p) => {
                let d = put(data, "first_prompt"@, Json::Str(p));
                law_lookup_after_put(data, keys[3], Json::Str(p), keys[5]);
                law_lookup_after_put(d, keys[4], Json::Bool(true), keys[3]);
                law_lookup_after_put(d, keys[4], Json::Bool(true), keys[5]);
                if n > 0 {
                    assert(!(text_kind(texts[0]) is Prompt));
                }
            },
            TextKind::Command(name) => {
                let d = if has_key(data, "command_fallback"@) {
                    data
                } else {
                    put(data, "command_fallback"@, Json::Str(name))
                };
                law_lookup_after_put(data, keys[5], Json::Str(name), keys[3]);
                law_lookup_after_put(data, keys[5], Json::Str(name), keys[4]);
                let rest = texts.skip(1);
                assert(forall|j: int| 0 <= j < rest.len() ==> #[trigger] rest[j] == texts[j + 1]);
                if c > 0 {
                    assert(!(text_kind(texts[0]) is Command));
                }
                let m = lemma_first_command(rest, n - 1);
                lemma_prompt_put(d, rest, n - 1, m);
            },
            TextKind::Skipped => {
                let rest = texts.skip(1);
                assert(forall|j: int| 0 <= j < rest.len() ==> #[trigger] rest[j] == texts[j + 1]);
                lemma_prompt_put(
                    data,
                    rest,
                    n - 1,
                    if c < n {
                        c - 1
                    } else {
                        n - 1
                    },
                );
            },
        }
    }
}

/// The first command among the first texts, if there is one.
proof fn lemma_first_command(texts: Seq<Seq<char>>, n: int) -> (c: int)
    requires
        0 <= n <= texts.len(),
    ensures
        0 <= c <= n,
        c < n ==> text_kind(texts[c]) is Command,
        forall|j: int| 0 <= j < c ==> !(text_kind(#[trigger] texts[j]) is Command),
    decreases n,
{
    if n == 0 {
        0
    } else {
        let c = lemma_first_command(texts, n - 1);
        if c < n - 1 {
            c
        } else if text_kind(texts[n - 1]) is Command {
            n - 1
        } else {
            n
        }
    }
}

/// The first prompt in a message that asks is the first prompt of the session,
/// for good. Up to then the first command is kept in its place. Any other
/// entry, and every entry behind the first prompt, leaves both as they were.
///
/// `n` is the place of the first prompt among the texts of the message, and
/// `c` that of the first command before it.
pub proof fn law_first_prompt_is_kept(data: Members, e: Members, n: int, c: int)
    requires
        distinct_keys(data),
        0 <= n <= message_texts(e).len(),
        n < message_texts(e).len() ==> text_kind(message_texts(e)[n]) is Prompt,
        forall|j: int| 0 <= j < n ==> !(text_kind(#[trigger] message_texts(e)[j]) is Prompt),
        0 <= c <= n,
        c < n ==> text_kind(message_texts(e)[c]) is Command,
        forall|j: int| 0 <= j < c ==> !(text_kind(#[trigger] message_texts(e)[j]) is Command),
    ensures
        ({
            let d = fold_entry(data, e);
            let texts = message_texts(e);
            let open = is_asked(e) && lookup(data, "first_prompt_locked"@) != Some(
                Json::Bool(true),
            );
            &&& open && n < texts.len() ==> lookup(d, "first_prompt"@) == Some(
                Json::Str(text_kind(texts[n])->Prompt_0),
            ) && lookup(d, "first_prompt_locked"@) == Some(Json::Bool(true))
            &&& !open || n == texts.len() ==> lookup(d, "first_prompt"@) == lookup(
                data,
                "first_prompt"@,
            ) && lookup(d, "first_prompt_locked"@) == lookup(data, "first_prompt_locked"@)
            &&& lookup(d, "command_fallback"@) == match lookup(data, "command_fallback"@) {
                Some(was) => Some(was),
                None => if open && c < n {
                    Some(Json::Str(text_kind(texts[c])->Command_0))
                } else {
                    None
                },
            }
        }),
{
    lemma_all_keys_differ();
    let keys = summary_keys();
    let d3 = fold_cwd(fold_created(fold_sidechain(data, e), e), e);
    lemma_start(data, e);
    lemma_start_keeps(data, e, 3);
    lemma_start_keeps(data, e, 4);
    lemma_start_keeps(data, e, 5);
    lemma_asked(d3, e);
    lemma_prompt_put(d3, message_texts(e), n, c);
    lemma_before_texts(data, e);
    let d4 = fold_prompt(d3, e);
    lemma_behind_keeps(d4, e, 3);
    lemma_behind_keeps(d4, e, 4);
    lemma_behind_keeps(d4, e, 5);
    assert(keys[3] == "first_prompt"@ && keys[4] == "first_prompt_locked"@ && keys[5]
        == "command_fallback"@);
}

/// What the listing shows of a summary. A title that a user set comes before a
/// generated one. Where there is no title, the summary is the last prompt, else
/// the hint, and the first prompt only where there is neither. An empty text
/// counts as none. Until the first prompt is found, the first command stands in
/// its place.
pub proof fn law_summary_info_sources(s: Summary, project_path: Option<Seq<char>>)
    ensures
        ({
            let full = |k: Seq<char>|
                (lookup(s.data, k) matches Some(Json::Str(t)) && t.len() > 0);
            let text = |k: Seq<char>| text_field(s.data, k)->0;
            let found = lookup(s.data, "first_prompt_locked"@) == Some(Json::Bool(true));
            let prompt = if found {
                "first_prompt"@
            } else {
                "command_fallback"@
            };
            let titled = full("custom_title"@) || full("ai_title"@);
            let r = summary_info(s, project_path);
            &&& r is Some <==> lookup(s.data, "is_sidechain"@) != Some(Json::Bool(true)) && (titled
                || full("last_prompt"@) || full("summary_hint"@) || full(prompt))
            &&& r matches Some(info) ==> {
                &&& info.session_id == s.session_id
                &&& info.last_modified == s.mtime
                &&& info.file_size is None
                &&& full("custom_title"@) ==> info.custom_title == Some(text("custom_title"@))
                &&& !full("custom_title"@) && full("ai_title"@) ==> info.custom_title == Some(
                    text("ai_title"@),
                )
                &&& !titled ==> info.custom_title is None
                &&& titled ==> info.custom_title == Some(info.summary)
                &&& !titled && full("last_prompt"@) ==> info.summary == text("last_prompt"@)
                &&& !titled && !full("last_prompt"@) && full("summary_hint"@) ==> info.summary
                    == text("summary_hint"@)
                &&& !titled && !full("last_prompt"@) && !full("summary_hint"@) ==> info.summary
                    == text(prompt)
                &&& full(prompt) ==> info.first_prompt == Some(text(prompt))
                &&& !full(prompt) ==> info.first_prompt is None
                &&& full("git_branch"@) ==> info.git_branch == Some(text("git_branch"@))
                &&& !full("git_branch"@) ==> info.git_branch is None
                &&& full("cwd"@) ==> info.cwd == Some(text("cwd"@))
                &&& !full("cwd"@) ==> info.cwd == project_path
                &&& full("tag"@) ==> info.tag == Some(text("tag"@))
                &&& !full("tag"@) ==> info.tag is None
                &&& match lookup(s.data, "created_at"@) {
                    Some(Json::Number(Num::Int(i))) => i64::MIN <= i <= i64::MAX
                        ==> info.created_at == Some(i as i64),
                    _ => info.created_at is None,
                }
            }
        }),
{
}

/// The texts of a message are its content where that is a text, or the text
/// blocks of a content that is a list. Without a message there are none.
pub proof fn law_texts_of_a_message(e: Members)
    ensures
        match lookup(e, "message"@) {
            Some(Json::Object(m)) => match lookup(m, "content"@) {
                Some(Json::Str(s)) => message_texts(e) == seq![s],
                Some(Json::Array(blocks)) => message_texts(e)
                    == crate::sessions::prompt::block_texts(blocks),
                _ => message_texts(e).len() == 0,
            },
            _ => message_texts(e).len() == 0,
        },
{
}

} // verus!
