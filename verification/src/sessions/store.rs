//! What a session store holds: entries, listings, session metadata, and the
//! reference store in memory.
use serde_json::{Map as JsonMap, Value};
use vstd::prelude::*;

use crate::json::{member_lists, members, Members};
use crate::sessions::key::{
    prefix_text, storage_text, Key, SessionKey, SessionListSubkeysKey,
};
use crate::sessions::summary::{fold_session_summary, folded, SessionSummaryEntry, Summary};
use crate::text::{after_prefix, split_on, text_view, text_views};

verus! {

/// One line of a transcript as a session store sees it: a JSON object that is
/// passed through.
pub type SessionStoreEntry = JsonMap<String, Value>;

/// A session in the listing of a store.
#[derive(Debug, PartialEq, Eq)]
pub struct SessionStoreListEntry {
    /// The session identifier.
    pub session_id: String,
    /// Last-modified time in Unix epoch milliseconds.
    pub mtime: i64,
}

impl Clone for SessionStoreListEntry {
    fn clone(&self) -> (r: Self)
        ensures
            r.session_id@ == self.session_id@,
            r.mtime == self.mtime,
    {
        SessionStoreListEntry { session_id: self.session_id.clone(), mtime: self.mtime }
    }
}

/// Session metadata returned by the listing of sessions.
#[derive(Debug, PartialEq, Eq)]
pub struct SDKSessionInfo {
    /// Unique session identifier.
    pub session_id: String,
    /// Display title: custom title, auto-generated summary, or first prompt.
    pub summary: String,
    /// Last-modified time in milliseconds since epoch.
    pub last_modified: i64,
    /// Session file size in bytes; only for local JSONL storage.
    pub file_size: Option<i64>,
    /// User-set custom title or AI-generated title.
    pub custom_title: Option<String>,
    /// First meaningful user prompt in the session.
    pub first_prompt: Option<String>,
    /// Git branch at the end of the session.
    pub git_branch: Option<String>,
    /// Working directory for the session.
    pub cwd: Option<String>,
    /// User-set session tag.
    pub tag: Option<String>,
    /// Creation time in milliseconds since epoch, from the first entry's ISO
    /// timestamp field.
    pub created_at: Option<i64>,
}

/// What an [`SDKSessionInfo`] says.
#[verifier::ext_equal]
pub ghost struct Info {
    pub session_id: Seq<char>,
    pub summary: Seq<char>,
    pub last_modified: i64,
    pub file_size: Option<i64>,
    pub custom_title: Option<Seq<char>>,
    pub first_prompt: Option<Seq<char>>,
    pub git_branch: Option<Seq<char>>,
    pub cwd: Option<Seq<char>>,
    pub tag: Option<Seq<char>>,
    pub created_at: Option<i64>,
}

impl View for SDKSessionInfo {
    type V = Info;

    open spec fn view(&self) -> Info {
        Info {
            session_id: self.session_id@,
            summary: self.summary@,
            last_modified: self.last_modified,
            file_size: self.file_size,
            custom_title: text_view(self.custom_title),
            first_prompt: text_view(self.first_prompt),
            git_branch: text_view(self.git_branch),
            cwd: text_view(self.cwd),
            tag: text_view(self.tag),
            created_at: self.created_at,
        }
    }
}

/// The infos of a list.
pub open spec fn info_views(v: Seq<SDKSessionInfo>) -> Seq<Info> {
    Seq::new(v.len(), |i: int| v[i]@)
}

/// An optional info.
pub open spec fn info_view(v: Option<SDKSessionInfo>) -> Option<Info> {
    match v {
        Some(x) => Some(x@),
        None => None,
    }
}

/// A copy of an optional text.
pub fn copy_text(s: &Option<String>) -> (r: Option<String>)
    ensures
        text_view(r) == text_view(*s),
{
    match s {
        Some(t) => Some(t.clone()),
        None => None,
    }
}

impl Clone for SDKSessionInfo {
    fn clone(&self) -> (r: Self)
        ensures
            r@ == self@,
    {
        SDKSessionInfo {
            session_id: self.session_id.clone(),
            summary: self.summary.clone(),
            last_modified: self.last_modified,
            file_size: self.file_size,
            custom_title: copy_text(&self.custom_title),
            first_prompt: copy_text(&self.first_prompt),
            git_branch: copy_text(&self.git_branch),
            cwd: copy_text(&self.cwd),
            tag: copy_text(&self.tag),
            created_at: self.created_at,
        }
    }
}

/// The info that says nothing but which session it is of, and when that was
/// last modified.
pub open spec fn bare_info(session_id: Seq<char>, last_modified: i64) -> Info {
    Info {
        session_id,
        summary: Seq::empty(),
        last_modified,
        file_size: None,
        custom_title: None,
        first_prompt: None,
        git_branch: None,
        cwd: None,
        tag: None,
        created_at: None,
    }
}

impl Default for SDKSessionInfo {
    fn default() -> (r: Self)
        ensures
            r@ == bare_info(Seq::empty(), 0),
    {
        let session_id = String::new();
        let summary = String::new();
        proof {
            assert(session_id@ =~= Seq::<char>::empty());
            assert(summary@ =~= Seq::<char>::empty());
        }
        SDKSessionInfo {
            session_id,
            summary,
            last_modified: 0,
            file_size: None,
            custom_title: None,
            first_prompt: None,
            git_branch: None,
            cwd: None,
            tag: None,
            created_at: None,
        }
    }
}

/// Controls when mirrored transcript entries are flushed to a session store.
#[derive(Debug, Clone, Copy, PartialEq, Eq)]
pub enum SessionStoreFlushMode {
    /// Buffer entries and flush once per turn or when the pending buffer
    /// exceeds its thresholds.
    Batched,
    /// Flush in the background after every frame.
    Eager,
}

impl Default for SessionStoreFlushMode {
    fn default() -> (r: Self)
        ensures
            r is Batched,
    {
        SessionStoreFlushMode::Batched
    }
}

/// Advertises which optional operations a session store implements.
#[derive(Debug, Clone, Copy, PartialEq, Eq)]
pub struct SessionStoreCapabilities {
    /// Sessions can be listed.
    pub list_sessions: bool,
    /// Session summaries can be listed.
    pub list_session_summaries: bool,
    /// Sessions can be deleted.
    pub delete: bool,
    /// Subkeys can be listed.
    pub list_subkeys: bool,
}

impl Default for SessionStoreCapabilities {
    fn default() -> (r: Self)
        ensures
            !r.list_sessions && !r.list_session_summaries && !r.delete && !r.list_subkeys,
    {
        SessionStoreCapabilities {
            list_sessions: false,
            list_session_summaries: false,
            delete: false,
            list_subkeys: false,
        }
    }
}

// ---------------------------------------------------------------------------
// The store in memory: what it holds
// ---------------------------------------------------------------------------

/// A transcript in the store: its storage key, its entries, and when it was
/// last written.
pub ghost struct Slot {
    pub key: Seq<char>,
    pub entries: Seq<Members>,
    pub mtime: i64,
}

/// A summary in the store, with the project and the session it is of.
pub ghost struct Sidecar {
    pub project_key: Seq<char>,
    pub session_id: Seq<char>,
    pub summary: Summary,
}

/// What the store in memory holds, in the order of the first writes.
pub ghost struct Memory {
    pub slots: Seq<Slot>,
    pub sidecars: Seq<Sidecar>,
    pub last_mtime: i64,
}

/// The position of the transcript with a storage key, or the number of
/// transcripts where there is none.
pub open spec fn slot_index(slots: Seq<Slot>, key: Seq<char>) -> int
    decreases slots.len(),
{
    if slots.len() == 0 || slots[0].key == key {
        0
    } else {
        1 + slot_index(slots.skip(1), key)
    }
}

/// The position of the summary of a session, or the number of summaries where
/// there is none.
pub open spec fn sidecar_index(
    sidecars: Seq<Sidecar>,
    project_key: Seq<char>,
    session_id: Seq<char>,
) -> int
    decreases sidecars.len(),
{
    if sidecars.len() == 0 || (sidecars[0].project_key == project_key && sidecars[0].session_id
        == session_id) {
        0
    } else {
        1 + sidecar_index(sidecars.skip(1), project_key, session_id)
    }
}

/// A time of writing behind all earlier ones: the clock's, where that is.
pub open spec fn write_time(last: i64, now: i64) -> i64 {
    if now <= last {
        (last + 1) as i64
    } else {
        now
    }
}

/// The transcripts after entries were appended to one of them.
pub open spec fn slots_appended(
    slots: Seq<Slot>,
    key: Seq<char>,
    entries: Seq<Members>,
    mtime: i64,
) -> Seq<Slot> {
    let i = slot_index(slots, key);
    if i < slots.len() {
        slots.update(i, Slot { key, entries: slots[i].entries + entries, mtime })
    } else {
        slots.push(Slot { key, entries, mtime })
    }
}

/// The summaries after entries were appended to the main transcript of a
/// session.
pub open spec fn sidecars_appended(
    sidecars: Seq<Sidecar>,
    project_key: Seq<char>,
    session_id: Seq<char>,
    entries: Seq<Members>,
    mtime: i64,
) -> Seq<Sidecar> {
    let i = sidecar_index(sidecars, project_key, session_id);
    let prev = if i < sidecars.len() {
        Some(sidecars[i].summary)
    } else {
        None
    };
    let summary = Summary { mtime, ..folded(prev, session_id, entries) };
    let now = Sidecar { project_key, session_id, summary };
    if i < sidecars.len() {
        sidecars.update(i, now)
    } else {
        sidecars.push(now)
    }
}

/// The store after entries were appended under a key. The entries of a
/// subagent leave the summary of the session alone. To append nothing is no
/// write.
pub open spec fn appended(m: Memory, k: Key, entries: Seq<Members>, now: i64) -> Memory {
    let mtime = write_time(m.last_mtime, now);
    if entries.len() == 0 {
        m
    } else {
        Memory {
            slots: slots_appended(m.slots, storage_text(k), entries, mtime),
            sidecars: if k.subpath is None {
                sidecars_appended(m.sidecars, k.project_key, k.session_id, entries, mtime)
            } else {
                m.sidecars
            },
            last_mtime: mtime,
        }
    }
}

/// The entries under a key, where there are any.
pub open spec fn loaded(m: Memory, k: Key) -> Option<Seq<Members>> {
    let i = slot_index(m.slots, storage_text(k));
    if i < m.slots.len() {
        Some(m.slots[i].entries)
    } else {
        None
    }
}

/// Whether the deletion of a key takes the transcript with a storage key: its
/// own, and for a main transcript those of the subagents of the session.
pub open spec fn is_deleted_with(k: Key, storage_key: Seq<char>) -> bool {
    storage_key == storage_text(k) || (k.subpath is None && prefix_text(
        k.project_key,
        k.session_id,
    ).is_prefix_of(storage_key))
}

/// The store after a key was deleted.
pub open spec fn deleted(m: Memory, k: Key) -> Memory {
    Memory {
        slots: m.slots.filter(|s: Slot| !is_deleted_with(k, s.key)),
        sidecars: if k.subpath is None {
            m.sidecars.filter(
                |s: Sidecar|
                    !(s.project_key == k.project_key && s.session_id == k.session_id),
            )
        } else {
            m.sidecars
        },
        last_mtime: m.last_mtime,
    }
}

/// The session of a project that a storage key is the main transcript of.
pub open spec fn main_session(storage_key: Seq<char>, project_key: Seq<char>) -> Option<Seq<char>> {
    match after_prefix(storage_key, project_key + seq!['/']) {
        Some(rest) => if rest.contains('/') {
            None
        } else {
            Some(rest)
        },
        None => None,
    }
}

/// The sessions of a project, with the times at which they were last written.
pub open spec fn listed(slots: Seq<Slot>, project_key: Seq<char>) -> Seq<(Seq<char>, i64)>
    decreases slots.len(),
{
    if slots.len() == 0 {
        Seq::empty()
    } else {
        let before = listed(slots.drop_last(), project_key);
        match main_session(slots.last().key, project_key) {
            Some(id) => before.push((id, slots.last().mtime)),
            None => before,
        }
    }
}

/// The subpaths of a session.
pub open spec fn subpaths(
    slots: Seq<Slot>,
    project_key: Seq<char>,
    session_id: Seq<char>,
) -> Seq<Seq<char>>
    decreases slots.len(),
{
    if slots.len() == 0 {
        Seq::empty()
    } else {
        let before = subpaths(slots.drop_last(), project_key, session_id);
        match after_prefix(slots.last().key, prefix_text(project_key, session_id)) {
            Some(s) => before.push(s),
            None => before,
        }
    }
}

/// The summaries of the sessions of a project.
pub open spec fn project_summaries(sidecars: Seq<Sidecar>, project_key: Seq<char>) -> Seq<Summary>
    decreases sidecars.len(),
{
    if sidecars.len() == 0 {
        Seq::empty()
    } else {
        let before = project_summaries(sidecars.drop_last(), project_key);
        if sidecars.last().project_key == project_key {
            before.push(sidecars.last().summary)
        } else {
            before
        }
    }
}

/// Whether a storage key is that of a main transcript: it holds one `/`.
pub open spec fn is_main_key(storage_key: Seq<char>) -> bool {
    split_on(storage_key, '/').len() == 2
}

/// The number of main transcripts.
pub open spec fn main_count(slots: Seq<Slot>) -> int
    decreases slots.len(),
{
    if slots.len() == 0 {
        0
    } else {
        main_count(slots.drop_last()) + if is_main_key(slots.last().key) {
            1int
        } else {
            0int
        }
    }
}

/// Whether no two transcripts have the same storage key, no two summaries are
/// of the same session, and nothing was written after the last write.
pub open spec fn is_orderly(m: Memory) -> bool {
    &&& forall|i: int, j: int|
        0 <= i < j < m.slots.len() ==> (#[trigger] m.slots[i]).key != (#[trigger] m.slots[j]).key
    &&& forall|i: int, j: int|
        0 <= i < j < m.sidecars.len() ==> !((#[trigger] m.sidecars[i]).project_key == (
        #[trigger] m.sidecars[j]).project_key && m.sidecars[i].session_id
            == m.sidecars[j].session_id)
    &&& forall|i: int| 0 <= i < m.slots.len() ==> (#[trigger] m.slots[i]).mtime <= m.last_mtime
}

// ---------------------------------------------------------------------------
// The store in memory: its promises
// ---------------------------------------------------------------------------

/// The position of a transcript is the first with its storage key.
proof fn lemma_slot_index(slots: Seq<Slot>, key: Seq<char>)
    ensures
        0 <= slot_index(slots, key) <= slots.len(),
        slot_index(slots, key) < slots.len() ==> slots[slot_index(slots, key)].key == key,
        forall|i: int| 0 <= i < slot_index(slots, key) ==> (#[trigger] slots[i]).key != key,
    decreases slots.len(),
{
    if slots.len() > 0 && slots[0].key != key {
        let rest = slots.skip(1);
        lemma_slot_index(rest, key);
        assert forall|i: int| 0 <= i < slot_index(slots, key) implies (#[trigger] slots[i]).key
            != key by {
            if i > 0 {
                assert(slots[i] == rest[i - 1]);
            }
        }
        if slot_index(rest, key) < rest.len() {
            assert(rest[slot_index(rest, key)] == slots[slot_index(slots, key)]);
        }
    }
}

/// The position of a summary is the first of its session.
proof fn lemma_sidecar_index(sidecars: Seq<Sidecar>, project_key: Seq<char>, session_id: Seq<char>)
    ensures
        0 <= sidecar_index(sidecars, project_key, session_id) <= sidecars.len(),
        sidecar_index(sidecars, project_key, session_id) < sidecars.len() ==> sidecars[sidecar_index(
            sidecars,
            project_key,
            session_id,
        )].project_key == project_key && sidecars[sidecar_index(
            sidecars,
            project_key,
            session_id,
        )].session_id == session_id,
        forall|i: int|
            0 <= i < sidecar_index(sidecars, project_key, session_id) ==> !((
            #[trigger] sidecars[i]).project_key == project_key && sidecars[i].session_id
                == session_id),
    decreases sidecars.len(),
{
    if sidecars.len() > 0 && !(sidecars[0].project_key == project_key && sidecars[0].session_id
        == session_id) {
        let rest = sidecars.skip(1);
        lemma_sidecar_index(rest, project_key, session_id);
        let n = sidecar_index(sidecars, project_key, session_id);
        assert forall|i: int| 0 <= i < n implies !((#[trigger] sidecars[i]).project_key
            == project_key && sidecars[i].session_id == session_id) by {
            if i > 0 {
                assert(sidecars[i] == rest[i - 1]);
            }
        }
        if n - 1 < rest.len() {
            assert(rest[n - 1] == sidecars[n]);
        }
    }
}

/// What was appended under a key is loaded under it, behind what was there
/// before, in the order of the calls. Where no entry was ever appended, nothing
/// is loaded.
pub proof fn law_load_after_append(m: Memory, k: Key, entries: Seq<Members>, now: i64)
    ensures
        loaded(appended(m, k, entries, now), k) == (match loaded(m, k) {
            Some(before) => Some(before + entries),
            None => if entries.len() > 0 {
                Some(entries)
            } else {
                None
            },
        }),
{
    if entries.len() > 0 {
        let key = storage_text(k);
        let n = appended(m, k, entries, now);
        lemma_slot_index(m.slots, key);
        lemma_slot_index(n.slots, key);
        let i = slot_index(m.slots, key);
        let j = slot_index(n.slots, key);
        assert(n.slots[i].key == key);
        if j < i {
            assert(n.slots[j].key == m.slots[j].key);
        }
    } else {
        if let Some(before) = loaded(m, k) {
            assert(before + entries =~= before);
        }
    }
}

/// Nothing is loaded under a key that was never written.
pub proof fn law_nothing_loaded_before_append(k: Key)
    ensures
        loaded(Memory { slots: Seq::empty(), sidecars: Seq::empty(), last_mtime: 0 }, k) is None,
{
}

/// Appending under a key leaves what is loaded under every other storage key
/// as it was.
pub proof fn law_append_leaves_other_keys(
    m: Memory,
    k: Key,
    entries: Seq<Members>,
    now: i64,
    other: Key,
)
    requires
        storage_text(other) != storage_text(k),
    ensures
        loaded(appended(m, k, entries, now), other) == loaded(m, other),
{
    if entries.len() > 0 {
        let key = storage_text(k);
        let n = appended(m, k, entries, now);
        let o = storage_text(other);
        lemma_slot_index(m.slots, key);
        lemma_slot_index(m.slots, o);
        lemma_slot_index(n.slots, o);
        let i = slot_index(m.slots, o);
        let j = slot_index(n.slots, o);
        assert(forall|a: int| 0 <= a < m.slots.len() ==> (#[trigger] n.slots[a]).key == m.slots[a].key);
        if i < m.slots.len() {
            assert(n.slots[i].key == o);
            if j < i {
                assert(n.slots[j].key == m.slots[j].key);
            }
        } else if j < n.slots.len() {
            if j < m.slots.len() {
                assert(n.slots[j].key == m.slots[j].key);
            }
        }
    }
}

/// Appending nothing changes nothing: no transcript, no summary, no listing and
/// no time.
pub proof fn law_empty_append_adds_nothing(m: Memory, k: Key, now: i64)
    ensures
        appended(m, k, Seq::empty(), now) == m,
{
}

/// Every write has a later time than all writes before it, and a store stays
/// orderly.
pub proof fn law_append_keeps_order(m: Memory, k: Key, entries: Seq<Members>, now: i64)
    requires
        is_orderly(m),
        entries.len() == 0 || m.last_mtime < i64::MAX,
    ensures
        is_orderly(appended(m, k, entries, now)),
        entries.len() > 0 ==> appended(m, k, entries, now).last_mtime > m.last_mtime,
        entries.len() > 0 ==> appended(m, k, entries, now).last_mtime >= now,
{
    if entries.len() > 0 {
        let n = appended(m, k, entries, now);
        lemma_slot_index(m.slots, storage_text(k));
        lemma_sidecar_index(m.sidecars, k.project_key, k.session_id);
        assert forall|i: int, j: int| 0 <= i < j < n.slots.len() implies (#[trigger] n.slots[i]).key != (
        #[trigger] n.slots[j]).key by {
            assert(n.slots[i].key == m.slots[i].key);
            if j < m.slots.len() {
                assert(n.slots[j].key == m.slots[j].key);
            }
        }
        assert forall|i: int| 0 <= i < n.slots.len() implies (#[trigger] n.slots[i]).mtime
            <= n.last_mtime by {
            if i < m.slots.len() {
                assert(m.slots[i].mtime <= m.last_mtime);
            }
        }
        if k.subpath is None {
            assert forall|i: int, j: int| 0 <= i < j < n.sidecars.len() implies !((
            #[trigger] n.sidecars[i]).project_key == (#[trigger] n.sidecars[j]).project_key
                && n.sidecars[i].session_id == n.sidecars[j].session_id) by {
                assert(n.sidecars[i].project_key == m.sidecars[i].project_key
                    && n.sidecars[i].session_id == m.sidecars[i].session_id);
                if j < m.sidecars.len() {
                    assert(n.sidecars[j].project_key == m.sidecars[j].project_key
                        && n.sidecars[j].session_id == m.sidecars[j].session_id);
                }
            }
        }
    }
}

/// The summary of a session carries the time of the same clock that its
/// listing shows: that of the last write.
pub proof fn law_summary_clock_is_listing_clock(
    m: Memory,
    k: Key,
    entries: Seq<Members>,
    now: i64,
)
    requires
        k.subpath is None,
        entries.len() > 0,
    ensures
        ({
            let n = appended(m, k, entries, now);
            let i = slot_index(n.slots, storage_text(k));
            let j = sidecar_index(n.sidecars, k.project_key, k.session_id);
            &&& i < n.slots.len()
            &&& j < n.sidecars.len()
            &&& n.slots[i].mtime == n.last_mtime
            &&& n.sidecars[j].summary.mtime == n.last_mtime
        }),
{
    let n = appended(m, k, entries, now);
    let key = storage_text(k);
    lemma_slot_index(m.slots, key);
    lemma_slot_index(n.slots, key);
    let i = slot_index(m.slots, key);
    assert(n.slots[i].key == key);
    if slot_index(n.slots, key) < i {
        assert(n.slots[slot_index(n.slots, key)].key == m.slots[slot_index(n.slots, key)].key);
    }
    lemma_sidecar_index(m.sidecars, k.project_key, k.session_id);
    lemma_sidecar_index(n.sidecars, k.project_key, k.session_id);
    let j = sidecar_index(m.sidecars, k.project_key, k.session_id);
    let l = sidecar_index(n.sidecars, k.project_key, k.session_id);
    assert(n.sidecars[j].project_key == k.project_key && n.sidecars[j].session_id == k.session_id);
    if l < j {
        assert(n.sidecars[l] == m.sidecars[l]);
    }
}

/// What is filtered out is not found, and what is kept is found with what it
/// held.
proof fn lemma_load_filtered(slots: Seq<Slot>, k: Key, key: Seq<char>)
    ensures
        ({
            let kept = slots.filter(|s: Slot| !is_deleted_with(k, s.key));
            let i = slot_index(slots, key);
            let j = slot_index(kept, key);
            if is_deleted_with(k, key) || i == slots.len() {
                j == kept.len()
            } else {
                j < kept.len() && kept[j] == slots[i]
            }
        }),
    decreases slots.len(),
{
    reveal(Seq::filter);
    let f = |s: Slot| !is_deleted_with(k, s.key);
    let kept = slots.filter(f);
    if slots.len() > 0 {
        let init = slots.drop_last();
        lemma_load_filtered(init, k, key);
        let kept0 = init.filter(f);
        lemma_slot_index(init, key);
        lemma_slot_index(slots, key);
        lemma_slot_index(kept0, key);
        lemma_slot_index(kept, key);
        let last = slots.last();
        let i0 = slot_index(init, key);
        let i = slot_index(slots, key);
        assert(forall|a: int| 0 <= a < init.len() ==> init[a] == slots[a]);
        if i0 < init.len() {
            assert(slots[i0].key == key);
            assert(i == i0) by {
                if i < i0 {
                    assert(init[i].key == slots[i].key);
                } else if i > i0 {
                    assert(slots[i0].key != key);
                }
            }
        } else {
            if i < init.len() {
                assert(init[i].key == key);
            }
            assert(slots[slots.len() - 1] == last);
            assert(last.key == key <==> i < slots.len()) by {
                if last.key == key && i == slots.len() {
                    assert(slots[slots.len() - 1].key != key);
                }
            }
        }
        let j0 = slot_index(kept0, key);
        let j = slot_index(kept, key);
        if f(last) {
            assert(kept =~= kept0.push(last));
            if j0 < kept0.len() {
                assert(kept[j0] == kept0[j0]);
                if j < j0 {
                    assert(kept[j] == kept0[j]);
                } else if j > j0 {
                    assert(kept[j0].key != key);
                }
            } else {
                if j < kept0.len() {
                    assert(kept[j] == kept0[j]);
                }
                if last.key == key {
                    assert(kept[kept0.len() as int] == last);
                    if j > kept0.len() {
                        assert(kept[kept0.len() as int].key != key);
                    }
                }
            }
        } else {
            assert(kept =~= kept0);
        }
    }
}

/// After a deletion nothing is loaded under the deleted key, nor for a main
/// transcript under any key of a subagent of the session. Under every other
/// key is loaded what was loaded before.
pub proof fn law_load_after_delete(m: Memory, k: Key, other: Key)
    ensures
        loaded(deleted(m, k), k) is None,
        k.subpath is None && other.project_key == k.project_key && other.session_id == k.session_id
            ==> loaded(deleted(m, k), other) is None,
        !is_deleted_with(k, storage_text(other)) ==> loaded(deleted(m, k), other) == loaded(
            m,
            other,
        ),
{
    lemma_load_filtered(m.slots, k, storage_text(k));
    lemma_load_filtered(m.slots, k, storage_text(other));
    lemma_slot_index(m.slots, storage_text(k));
    lemma_slot_index(m.slots, storage_text(other));
    if k.subpath is None && other.project_key == k.project_key && other.session_id == k.session_id {
        if let Some(s) = other.subpath {
            crate::sessions::key::law_subkeys_share_the_prefix(k.project_key, k.session_id, s);
            let p = prefix_text(k.project_key, k.session_id);
            assert(storage_text(other) == p + s);
            assert((p + s).subrange(0, p.len() as int) =~= p);
        }
    }
}

/// Filtered slots still have different keys.
proof fn lemma_filtered_slots(slots: Seq<Slot>, f: spec_fn(Slot) -> bool, last: i64)
    requires
        forall|i: int, j: int|
            0 <= i < j < slots.len() ==> (#[trigger] slots[i]).key != (#[trigger] slots[j]).key,
        forall|i: int| 0 <= i < slots.len() ==> (#[trigger] slots[i]).mtime <= last,
    ensures
        forall|i: int, j: int|
            0 <= i < j < slots.filter(f).len() ==> (#[trigger] slots.filter(f)[i]).key != (
            #[trigger] slots.filter(f)[j]).key,
        forall|i: int|
            0 <= i < slots.filter(f).len() ==> (#[trigger] slots.filter(f)[i]).mtime <= last,
    decreases slots.len(),
{
    reveal(Seq::filter);
    if slots.len() > 0 {
        let front = slots.drop_last();
        assert forall|i: int, j: int| 0 <= i < j < front.len() implies (#[trigger] front[i]).key
            != (#[trigger] front[j]).key by {
            assert(front[i] == slots[i] && front[j] == slots[j]);
        }
        assert forall|i: int| 0 <= i < front.len() implies (#[trigger] front[i]).mtime <= last by {
            assert(front[i] == slots[i]);
        }
        lemma_filtered_slots(front, f, last);
        let before = front.filter(f);
        let all = slots.filter(f);
        assert forall|i: int, j: int| 0 <= i < j < all.len() implies (#[trigger] all[i]).key != (
        #[trigger] all[j]).key by {
            assert(all[i] == before[i]);
            if j < before.len() {
                assert(all[j] == before[j]);
            } else {
                front.lemma_filter_contains_rev(f, before[i]);
                let k = choose|k: int| 0 <= k < front.len() && front[k] == before[i];
                assert(slots[k] == front[k]);
                assert(slots[slots.len() - 1] == slots.last());
            }
        }
        assert forall|i: int| 0 <= i < all.len() implies (#[trigger] all[i]).mtime <= last by {
            if i < before.len() {
                assert(all[i] == before[i]);
            } else {
                assert(slots[slots.len() - 1] == slots.last());
            }
        }
    }
}

/// Filtered sidecars are still of different sessions.
proof fn lemma_filtered_sidecars(sidecars: Seq<Sidecar>, f: spec_fn(Sidecar) -> bool)
    requires
        forall|i: int, j: int|
            0 <= i < j < sidecars.len() ==> !((#[trigger] sidecars[i]).project_key == (
            #[trigger] sidecars[j]).project_key && sidecars[i].session_id
                == sidecars[j].session_id),
    ensures
        forall|i: int, j: int|
            0 <= i < j < sidecars.filter(f).len() ==> !((#[trigger] sidecars.filter(
                f,
            )[i]).project_key == (#[trigger] sidecars.filter(f)[j]).project_key
                && sidecars.filter(f)[i].session_id == sidecars.filter(f)[j].session_id),
    decreases sidecars.len(),
{
    reveal(Seq::filter);
    if sidecars.len() > 0 {
        let front = sidecars.drop_last();
        assert forall|i: int, j: int| 0 <= i < j < front.len() implies !((
        #[trigger] front[i]).project_key == (#[trigger] front[j]).project_key
            && front[i].session_id == front[j].session_id) by {
            assert(front[i] == sidecars[i] && front[j] == sidecars[j]);
        }
        lemma_filtered_sidecars(front, f);
        let before = front.filter(f);
        let all = sidecars.filter(f);
        assert forall|i: int, j: int| 0 <= i < j < all.len() implies !((
        #[trigger] all[i]).project_key == (#[trigger] all[j]).project_key && all[i].session_id
            == all[j].session_id) by {
            assert(all[i] == before[i]);
            if j < before.len() {
                assert(all[j] == before[j]);
            } else {
                front.lemma_filter_contains_rev(f, before[i]);
                let k = choose|k: int| 0 <= k < front.len() && front[k] == before[i];
                assert(sidecars[k] == front[k]);
                assert(sidecars[sidecars.len() - 1] == sidecars.last());
            }
        }
    }
}

/// A delete keeps a store orderly.
pub proof fn law_delete_keeps_order(m: Memory, k: Key)
    requires
        is_orderly(m),
    ensures
        is_orderly(deleted(m, k)),
        deleted(m, k).last_mtime == m.last_mtime,
{
    lemma_filtered_slots(m.slots, |s: Slot| !is_deleted_with(k, s.key), m.last_mtime);
    lemma_filtered_sidecars(
        m.sidecars,
        |s: Sidecar| !(s.project_key == k.project_key && s.session_id == k.session_id),
    );
}

/// The deletion of the transcript of a subagent takes nothing else.
pub proof fn law_targeted_delete(m: Memory, k: Key, other: Key)
    requires
        k.subpath is Some,
        storage_text(other) != storage_text(k),
    ensures
        loaded(deleted(m, k), other) == loaded(m, other),
        deleted(m, k).sidecars == m.sidecars,
{
    law_load_after_delete(m, k, other);
}

/// The position of an entry in a listing.
proof fn lemma_listed(slots: Seq<Slot>, project_key: Seq<char>, id: Seq<char>, mtime: i64)
    ensures
        listed(slots, project_key).contains((id, mtime)) <==> exists|i: int|
            0 <= i < slots.len() && main_session((#[trigger] slots[i]).key, project_key) == Some(id)
                && slots[i].mtime == mtime,
    decreases slots.len(),
{
    if slots.len() > 0 {
        let init = slots.drop_last();
        lemma_listed(init, project_key, id, mtime);
        let before = listed(init, project_key);
        let now = listed(slots, project_key);
        let n = slots.len() - 1;
        assert(forall|i: int| 0 <= i < n ==> init[i] == slots[i]);
        assert(slots[n] == slots.last());
        if before.contains((id, mtime)) {
            let a = choose|a: int| 0 <= a < before.len() && before[a] == (id, mtime);
            assert(now[a] == before[a]);
            let i = choose|i: int|
                0 <= i < init.len() && main_session((#[trigger] init[i]).key, project_key) == Some(
                    id,
                ) && init[i].mtime == mtime;
            assert(slots[i] == init[i]);
        }
        if now.contains((id, mtime)) && !before.contains((id, mtime)) {
            let a = choose|a: int| 0 <= a < now.len() && now[a] == (id, mtime);
            if a < before.len() {
                assert(before[a] == now[a]);
            }
            assert(main_session(slots[n].key, project_key) == Some(id));
        }
        if exists|i: int|
            0 <= i < slots.len() && main_session((#[trigger] slots[i]).key, project_key) == Some(id)
                && slots[i].mtime == mtime {
            let i = choose|i: int|
                0 <= i < slots.len() && main_session((#[trigger] slots[i]).key, project_key)
                    == Some(id) && slots[i].mtime == mtime;
            if i < n {
                assert(init[i] == slots[i]);
            } else {
                assert(now.last() == (id, mtime));
                assert(now[now.len() - 1] == (id, mtime));
            }
        }
    }
}

/// The storage key of a main transcript is that of its session and project
/// alone, where the session identifier holds no `/`.
proof fn lemma_main_session(project_key: Seq<char>, session_id: Seq<char>)
    requires
        !session_id.contains('/'),
    ensures
        main_session(
            storage_text(Key { project_key, session_id, subpath: None }),
            project_key,
        ) == Some(session_id),
{
    let p = project_key + seq!['/'];
    let s = storage_text(Key { project_key, session_id, subpath: None });
    assert(s =~= p + session_id);
    assert(s.subrange(0, p.len() as int) =~= p);
    assert(s.skip(p.len() as int) =~= session_id);
}

/// After a write to a main transcript the listing of its project shows the
/// session with the time of the write. The listing of another project does not
/// change, where project keys hold no `/`.
pub proof fn law_listing_after_append(
    m: Memory,
    k: Key,
    entries: Seq<Members>,
    now: i64,
    other_project: Seq<char>,
)
    requires
        k.subpath is None,
        !k.session_id.contains('/'),
        !k.project_key.contains('/'),
        !other_project.contains('/'),
        other_project != k.project_key,
    ensures
        ({
            let n = appended(m, k, entries, now);
            &&& entries.len() > 0 ==> listed(n.slots, k.project_key).contains(
                (k.session_id, n.last_mtime),
            )
            &&& listed(n.slots, other_project) == listed(m.slots, other_project)
        }),
{
    if entries.len() > 0 {
        let n = appended(m, k, entries, now);
        let key = storage_text(k);
        lemma_slot_index(m.slots, key);
        let i = slot_index(m.slots, key);
        lemma_main_session(k.project_key, k.session_id);
        assert(n.slots[i].key == key && n.slots[i].mtime == n.last_mtime);
        lemma_listed(n.slots, k.project_key, k.session_id, n.last_mtime);
        assert(main_session(key, other_project) is None) by {
            let p = other_project + seq!['/'];
            if p.is_prefix_of(key) {
                assert(key.subrange(0, p.len() as int) == p);
                assert(key =~= k.project_key + seq!['/'] + k.session_id);
                let a = k.project_key.len();
                let b = other_project.len();
                assert(key[a as int] == '/');
                assert(p[b as int] == key[b as int]);
                if a < b {
                    assert(p[a as int] == key[a as int]);
                    assert(other_project[a as int] == '/');
                    assert(other_project.contains('/'));
                } else if b < a {
                    assert(k.project_key[b as int] == key[b as int]);
                    assert(k.project_key.contains('/'));
                } else {
                    assert forall|c: int| 0 <= c < a implies other_project[c] == k.project_key[c] by {
                        assert(p[c] == key[c]);
                    }
                    assert(other_project =~= k.project_key);
                }
            }
        }
        if i < m.slots.len() {
            lemma_listed_update(m.slots, i, n.slots[i], other_project);
        } else {
            assert(n.slots.drop_last() =~= m.slots);
        }
    }
}

/// A transcript that is not in a listing can be rewritten without a change to
/// the listing.
proof fn lemma_listed_update(slots: Seq<Slot>, i: int, s: Slot, project_key: Seq<char>)
    requires
        0 <= i < slots.len(),
        slots[i].key == s.key,
        main_session(s.key, project_key) is None,
    ensures
        listed(slots.update(i, s), project_key) == listed(slots, project_key),
    decreases slots.len(),
{
    if i == slots.len() - 1 {
        assert(slots.update(i, s).drop_last() =~= slots.drop_last());
    } else {
        lemma_listed_update(slots.drop_last(), i, s, project_key);
        assert(slots.update(i, s).drop_last() =~= slots.drop_last().update(i, s));
    }
}

/// A storage key of a subagent names no main transcript of any project.
proof fn lemma_subagent_key(k: Key, project: Seq<char>)
    requires
        k.subpath is Some,
        !k.project_key.contains('/'),
        !project.contains('/'),
    ensures
        main_session(storage_text(k), project) is None,
{
    let key = storage_text(k);
    let p = project + seq!['/'];
    if p.is_prefix_of(key) {
        let a = k.project_key.len() as int;
        let b = project.len() as int;
        assert(key =~= k.project_key + seq!['/'] + k.session_id + seq!['/'] + k.subpath->0);
        assert(key[a] == '/');
        assert(key.subrange(0, p.len() as int) == p);
        assert(p[b] == key[b]);
        if a < b {
            assert(p[a] == key[a]);
            assert(project[a] == '/');
            assert(project.contains('/'));
        } else if b < a {
            assert(k.project_key[b] == key[b]);
            assert(k.project_key.contains('/'));
        }
        let rest = key.skip(p.len() as int);
        let at = k.session_id.len() as int;
        assert(rest[at] == key[a + 1 + at]);
        assert(key[a + 1 + at] == '/');
        assert(rest.contains('/'));
    }
}

/// A subagent's transcript neither shows in a listing of sessions nor touches
/// a summary.
pub proof fn law_subagents_stay_in_the_background(
    m: Memory,
    k: Key,
    entries: Seq<Members>,
    now: i64,
    project: Seq<char>,
)
    requires
        k.subpath is Some,
        !k.project_key.contains('/'),
        !project.contains('/'),
    ensures
        listed(appended(m, k, entries, now).slots, project) == listed(m.slots, project),
        appended(m, k, entries, now).sidecars == m.sidecars,
{
    if entries.len() > 0 {
        let n = appended(m, k, entries, now);
        let key = storage_text(k);
        lemma_slot_index(m.slots, key);
        lemma_subagent_key(k, project);
        let i = slot_index(m.slots, key);
        if i < m.slots.len() {
            lemma_listed_update(m.slots, i, n.slots[i], project);
        } else {
            assert(n.slots.drop_last() =~= m.slots);
        }
    }
}

/// Subpaths are those of the slots that the session's prefix starts.
proof fn lemma_subpaths(slots: Seq<Slot>, project_key: Seq<char>, session_id: Seq<char>)
    ensures
        forall|s: Seq<char>| #[trigger]
            subpaths(slots, project_key, session_id).contains(s) <==> exists|i: int|
                0 <= i < slots.len() && after_prefix(
                    (#[trigger] slots[i]).key,
                    prefix_text(project_key, session_id),
                ) == Some(s),
    decreases slots.len(),
{
    if slots.len() > 0 {
        let front = slots.drop_last();
        lemma_subpaths(front, project_key, session_id);
        let before = subpaths(front, project_key, session_id);
        let all = subpaths(slots, project_key, session_id);
        let p = prefix_text(project_key, session_id);
        assert(slots[slots.len() - 1] == slots.last());
        assert forall|s: Seq<char>| #[trigger] all.contains(s) <==> exists|i: int|
            0 <= i < slots.len() && after_prefix((#[trigger] slots[i]).key, p) == Some(s) by {
            if all.contains(s) {
                let j = choose|j: int| 0 <= j < all.len() && all[j] == s;
                if j < before.len() {
                    assert(before[j] == s);
                    assert(before.contains(s));
                    let i = choose|i: int|
                        0 <= i < front.len() && after_prefix((#[trigger] front[i]).key, p) == Some(
                            s,
                        );
                    assert(slots[i] == front[i]);
                }
            }
            if exists|i: int|
                0 <= i < slots.len() && after_prefix((#[trigger] slots[i]).key, p) == Some(s) {
                let i = choose|i: int|
                    0 <= i < slots.len() && after_prefix((#[trigger] slots[i]).key, p) == Some(s);
                if i < front.len() {
                    assert(front[i] == slots[i]);
                    assert(before.contains(s));
                    let j = choose|j: int| 0 <= j < before.len() && before[j] == s;
                    assert(all[j] == s);
                } else {
                    assert(all[all.len() - 1] == s);
                }
            }
        }
    }
}

/// The subkeys of a session are the subpaths that were written below it; its
/// main transcript is none of them.
pub proof fn law_subkeys_after_append(
    m: Memory,
    k: Key,
    entries: Seq<Members>,
    now: i64,
    s: Seq<char>,
)
    requires
        !k.session_id.contains('/'),
    ensures
        ({
            let n = appended(m, k, entries, now);
            let before = subpaths(m.slots, k.project_key, k.session_id);
            let after = subpaths(n.slots, k.project_key, k.session_id);
            after.contains(s) <==> before.contains(s) || (entries.len() > 0 && k.subpath == Some(
                s,
            ))
        }),
{
    if entries.len() > 0 {
        let n = appended(m, k, entries, now);
        let key = storage_text(k);
        let p = prefix_text(k.project_key, k.session_id);
        lemma_slot_index(m.slots, key);
        lemma_subpaths(m.slots, k.project_key, k.session_id);
        lemma_subpaths(n.slots, k.project_key, k.session_id);
        let at = slot_index(m.slots, key);
        assert(n.slots[at].key == key);
        match k.subpath {
            Some(x) => {
                assert(key =~= p + x);
                assert(after_prefix(key, p) == Some(x)) by {
                    assert(key.subrange(0, p.len() as int) =~= p);
                    assert(key.skip(p.len() as int) =~= x);
                }
            },
            None => {
                assert(key.len() < p.len());
            },
        }
        let before = subpaths(m.slots, k.project_key, k.session_id);
        let after = subpaths(n.slots, k.project_key, k.session_id);
        if before.contains(s) {
            let i = choose|i: int|
                0 <= i < m.slots.len() && after_prefix((#[trigger] m.slots[i]).key, p) == Some(s);
            assert(n.slots[i].key == m.slots[i].key);
        }
        if after.contains(s) {
            let i = choose|i: int|
                0 <= i < n.slots.len() && after_prefix((#[trigger] n.slots[i]).key, p) == Some(s);
            if i != at {
                assert(m.slots[i].key == n.slots[i].key);
            } else if at < m.slots.len() {
                assert(m.slots[at].key == key);
            }
        }
    }
}

/// Filtering keeps the transcripts that pass, and no others.
proof fn lemma_kept_slots(slots: Seq<Slot>, k: Key, s: Slot)
    ensures
        slots.filter(|x: Slot| !is_deleted_with(k, x.key)).contains(s) <==> slots.contains(s)
            && !is_deleted_with(k, s.key),
{
    let f = |x: Slot| !is_deleted_with(k, x.key);
    let kept = slots.filter(f);
    if kept.contains(s) {
        slots.lemma_filter_contains_rev(f, s);
        let i = choose|i: int| 0 <= i < kept.len() && kept[i] == s;
        slots.lemma_filter_pred(f, i);
    }
    if slots.contains(s) && f(s) {
        let i = choose|i: int| 0 <= i < slots.len() && slots[i] == s;
        slots.lemma_filter_contains(f, i);
    }
}

/// After the deletion of a main transcript the listing of its project shows
/// every other session as before, and this one no more.
pub proof fn law_listing_after_delete(m: Memory, k: Key, id: Seq<char>, mtime: i64)
    requires
        k.subpath is None,
    ensures
        listed(deleted(m, k).slots, k.project_key).contains((id, mtime)) <==> id != k.session_id
            && listed(m.slots, k.project_key).contains((id, mtime)),
{
    let n = deleted(m, k);
    let p = k.project_key + seq!['/'];
    lemma_listed(m.slots, k.project_key, id, mtime);
    lemma_listed(n.slots, k.project_key, id, mtime);
    assert forall|s: Slot| main_session(s.key, k.project_key) == Some(id) implies is_deleted_with(
        k,
        #[trigger] s.key,
    ) == (id == k.session_id) by {
        assert(s.key =~= p + id) by {
            assert(s.key.skip(p.len() as int) == id);
        }
        assert(storage_text(k) =~= p + k.session_id);
        if s.key == storage_text(k) {
            assert(s.key.skip(p.len() as int) =~= k.session_id);
        }
        let q = prefix_text(k.project_key, k.session_id);
        if q.is_prefix_of(s.key) {
            let at = q.len() - 1;
            assert(q[at] == '/' && s.key[at] == q[at]);
            assert(id[at - p.len()] == '/');
            assert(id.contains('/'));
        }
    }
    if listed(n.slots, k.project_key).contains((id, mtime)) {
        let i = choose|i: int|
            0 <= i < n.slots.len() && main_session((#[trigger] n.slots[i]).key, k.project_key)
                == Some(id) && n.slots[i].mtime == mtime;
        let s = n.slots[i];
        lemma_kept_slots(m.slots, k, s);
        assert(n.slots.contains(s));
        let j = choose|j: int| 0 <= j < m.slots.len() && m.slots[j] == s;
        assert(main_session(m.slots[j].key, k.project_key) == Some(id));
    }
    if id != k.session_id && listed(m.slots, k.project_key).contains((id, mtime)) {
        let i = choose|i: int|
            0 <= i < m.slots.len() && main_session((#[trigger] m.slots[i]).key, k.project_key)
                == Some(id) && m.slots[i].mtime == mtime;
        let s = m.slots[i];
        lemma_kept_slots(m.slots, k, s);
        assert(m.slots.contains(s));
        let j = choose|j: int| 0 <= j < n.slots.len() && n.slots[j] == s;
        assert(main_session(n.slots[j].key, k.project_key) == Some(id));
    }
}

/// After the deletion of a main transcript the session has no subkeys. After
/// that of a subagent's transcript it has the same subkeys but that one.
pub proof fn law_subkeys_after_delete(m: Memory, k: Key, s: Seq<char>)
    ensures
        ({
            let before = subpaths(m.slots, k.project_key, k.session_id);
            let after = subpaths(deleted(m, k).slots, k.project_key, k.session_id);
            match k.subpath {
                None => !after.contains(s),
                Some(x) => after.contains(s) <==> before.contains(s) && s != x,
            }
        }),
{
    let n = deleted(m, k);
    let p = prefix_text(k.project_key, k.session_id);
    lemma_subpaths(m.slots, k.project_key, k.session_id);
    lemma_subpaths(n.slots, k.project_key, k.session_id);
    let before = subpaths(m.slots, k.project_key, k.session_id);
    let after = subpaths(n.slots, k.project_key, k.session_id);
    assert forall|x: Slot| after_prefix(x.key, p) == Some(s) implies is_deleted_with(
        k,
        #[trigger] x.key,
    ) == (k.subpath is None || k.subpath == Some(s)) by {
        assert(x.key =~= p + s) by {
            assert(x.key.skip(p.len() as int) == s);
        }
        if let Some(y) = k.subpath {
            assert(storage_text(k) =~= p + y);
            if x.key == storage_text(k) {
                assert(storage_text(k).skip(p.len() as int) =~= y);
            }
        }
    }
    if after.contains(s) {
        let i = choose|i: int|
            0 <= i < n.slots.len() && after_prefix((#[trigger] n.slots[i]).key, p) == Some(s);
        lemma_kept_slots(m.slots, k, n.slots[i]);
        assert(n.slots.contains(n.slots[i]));
        let j = choose|j: int| 0 <= j < m.slots.len() && m.slots[j] == n.slots[i];
        assert(after_prefix(m.slots[j].key, p) == Some(s));
    }
    if before.contains(s) && k.subpath is Some && k.subpath != Some(s) {
        let i = choose|i: int|
            0 <= i < m.slots.len() && after_prefix((#[trigger] m.slots[i]).key, p) == Some(s);
        lemma_kept_slots(m.slots, k, m.slots[i]);
        assert(m.slots.contains(m.slots[i]));
        let j = choose|j: int| 0 <= j < n.slots.len() && n.slots[j] == m.slots[i];
        assert(after_prefix(n.slots[j].key, p) == Some(s));
    }
}

/// Whatever is appended for one session, the subkeys of another stay as they
/// were, where neither project keys nor session identifiers hold a `/`.
pub proof fn law_other_sessions_keep_their_subkeys(
    m: Memory,
    k: Key,
    entries: Seq<Members>,
    now: i64,
    project_key: Seq<char>,
    session_id: Seq<char>,
)
    requires
        !k.project_key.contains('/') && !k.session_id.contains('/'),
        !project_key.contains('/') && !session_id.contains('/'),
        project_key != k.project_key || session_id != k.session_id,
    ensures
        subpaths(appended(m, k, entries, now).slots, project_key, session_id) == subpaths(
            m.slots,
            project_key,
            session_id,
        ),
{
    let n = appended(m, k, entries, now);
    let key = storage_text(k);
    let p = prefix_text(project_key, session_id);
    lemma_slot_index(m.slots, key);
    assert(after_prefix(key, p) is None) by {
        if p.is_prefix_of(key) {
            let s = key.skip(p.len() as int);
            let other = Key { project_key, session_id, subpath: Some(s) };
            crate::sessions::key::law_subkeys_share_the_prefix(project_key, session_id, s);
            assert(storage_text(other) =~= key);
            crate::sessions::key::law_storage_key_is_unique(other, k);
        }
    }
    let i = slot_index(m.slots, key);
    if i < m.slots.len() && entries.len() > 0 {
        lemma_subpaths_update(m.slots, i, n.slots[i], project_key, session_id);
    } else if entries.len() > 0 {
        assert(n.slots.drop_last() =~= m.slots);
    }
}

/// A transcript that is not of a session can be rewritten without a change to
/// the subkeys of the session.
proof fn lemma_subpaths_update(
    slots: Seq<Slot>,
    i: int,
    s: Slot,
    project_key: Seq<char>,
    session_id: Seq<char>,
)
    requires
        0 <= i < slots.len(),
        slots[i].key == s.key,
        after_prefix(s.key, prefix_text(project_key, session_id)) is None,
    ensures
        subpaths(slots.update(i, s), project_key, session_id) == subpaths(
            slots,
            project_key,
            session_id,
        ),
    decreases slots.len(),
{
    if i == slots.len() - 1 {
        assert(slots.update(i, s).drop_last() =~= slots.drop_last());
    } else {
        lemma_subpaths_update(slots.drop_last(), i, s, project_key, session_id);
        assert(slots.update(i, s).drop_last() =~= slots.drop_last().update(i, s));
    }
}

/// A deleted session has no summary left.
pub proof fn law_delete_clears_the_summary(m: Memory, k: Key)
    requires
        k.subpath is None,
    ensures
        sidecar_index(deleted(m, k).sidecars, k.project_key, k.session_id) == deleted(
            m,
            k,
        ).sidecars.len(),
{
    let f = |s: Sidecar| !(s.project_key == k.project_key && s.session_id == k.session_id);
    let left = deleted(m, k).sidecars;
    lemma_sidecar_index(left, k.project_key, k.session_id);
    let i = sidecar_index(left, k.project_key, k.session_id);
    if i < left.len() {
        m.sidecars.lemma_filter_pred(f, i);
    }
}

// ---------------------------------------------------------------------------
// The store in memory
// ---------------------------------------------------------------------------

/// A transcript in the store.
#[derive(Debug)]
struct StoredTranscript {
    key: String,
    entries: Vec<SessionStoreEntry>,
    mtime: i64,
}

/// A summary in the store.
#[derive(Debug)]
struct StoredSummary {
    project_key: String,
    session_id: String,
    summary: SessionSummaryEntry,
}

/// In-memory session store for testing and development. Not durable: data is
/// lost when the process exits.
#[derive(Debug)]
pub struct InMemorySessionStore {
    transcripts: Vec<StoredTranscript>,
    summaries: Vec<StoredSummary>,
    last_mtime: i64,
}

/// What the transcripts hold.
spec fn slot_views(v: Seq<StoredTranscript>) -> Seq<Slot> {
    Seq::new(
        v.len(),
        |i: int|
            Slot { key: v[i].key@, entries: member_lists(v[i].entries@), mtime: v[i].mtime },
    )
}

/// What the summaries hold.
spec fn sidecar_views(v: Seq<StoredSummary>) -> Seq<Sidecar> {
    Seq::new(
        v.len(),
        |i: int|
            Sidecar {
                project_key: v[i].project_key@,
                session_id: v[i].session_id@,
                summary: v[i].summary@,
            },
    )
}

impl View for InMemorySessionStore {
    type V = Memory;

    closed spec fn view(&self) -> Memory {
        Memory {
            slots: slot_views(self.transcripts@),
            sidecars: sidecar_views(self.summaries@),
            last_mtime: self.last_mtime,
        }
    }
}

impl Default for InMemorySessionStore {
    /// An empty store.
    fn default() -> (r: Self)
        ensures
            r@ == (Memory { slots: Seq::empty(), sidecars: Seq::empty(), last_mtime: 0 }),
    {
        InMemorySessionStore::new()
    }
}

/// The listings by their texts.
pub open spec fn listing_views(v: Seq<SessionStoreListEntry>) -> Seq<(Seq<char>, i64)> {
    Seq::new(v.len(), |i: int| (v[i].session_id@, v[i].mtime))
}

/// The summaries by what they say.
pub open spec fn summary_views(v: Seq<SessionSummaryEntry>) -> Seq<Summary> {
    Seq::new(v.len(), |i: int| v[i]@)
}

/// A copy of a list of entries.
pub fn copy_entries(entries: &Vec<SessionStoreEntry>) -> (r: Vec<SessionStoreEntry>)
    ensures
        member_lists(r@) == member_lists(entries@),
{
    let mut out: Vec<SessionStoreEntry> = Vec::new();
    let mut i: usize = 0;
    while i < entries.len()
        invariant
            i <= entries@.len(),
            out@.len() == i,
            forall|j: int| 0 <= j < i ==> members(#[trigger] out@[j]) == members(entries@[j]),
        decreases entries@.len() - i,
    {
        out.push(entries[i].clone());
        i = i + 1;
    }
    proof {
        assert(member_lists(out@) =~= member_lists(entries@));
    }
    out
}

/// A time of writing behind all earlier ones: the clock's, where that is.
pub fn next_mtime(last: i64, now: i64) -> (r: i64)
    requires
        last < i64::MAX,
    ensures
        r == write_time(last, now),
        r > last,
{
    if now <= last {
        last + 1
    } else {
        now
    }
}

impl InMemorySessionStore {
    /// Creates an empty in-memory store.
    pub fn new() -> (r: Self)
        ensures
            r@ == (Memory { slots: Seq::empty(), sidecars: Seq::empty(), last_mtime: 0 }),
            is_orderly(r@),
    {
        let r = InMemorySessionStore {
            transcripts: Vec::new(),
            summaries: Vec::new(),
            last_mtime: 0,
        };
        proof {
            assert(r@.slots =~= Seq::<Slot>::empty());
            assert(r@.sidecars =~= Seq::<Sidecar>::empty());
        }
        r
    }

    /// The position of the transcript with a storage key.
    fn find_transcript(&self, key: &str) -> (r: usize)
        ensures
            r == slot_index(self@.slots, key@),
            r <= self.transcripts@.len(),
    {
        let ghost slots = self@.slots;
        let mut i: usize = 0;
        proof {
            assert(slots.skip(0) =~= slots);
        }
        while i < self.transcripts.len()
            invariant
                slots == slot_views(self.transcripts@),
                i <= self.transcripts@.len(),
                slot_index(slots, key@) == i + slot_index(slots.skip(i as int), key@),
            decreases self.transcripts@.len() - i,
        {
            proof {
                assert(slots.skip(i as int)[0] == slots[i as int]);
                assert(slots.skip(i as int).skip(1) =~= slots.skip(i as int + 1));
            }
            if crate::text::same(&self.transcripts[i].key, key) {
                return i;
            }
            i = i + 1;
        }
        i
    }

    /// The position of the summary of a session.
    fn find_summary(&self, project_key: &str, session_id: &str) -> (r: usize)
        ensures
            r == sidecar_index(self@.sidecars, project_key@, session_id@),
            r <= self.summaries@.len(),
    {
        let ghost all = self@.sidecars;
        let mut i: usize = 0;
        proof {
            assert(all.skip(0) =~= all);
        }
        while i < self.summaries.len()
            invariant
                all == sidecar_views(self.summaries@),
                i <= self.summaries@.len(),
                sidecar_index(all, project_key@, session_id@) == i + sidecar_index(
                    all.skip(i as int),
                    project_key@,
                    session_id@,
                ),
            decreases self.summaries@.len() - i,
        {
            proof {
                assert(all.skip(i as int)[0] == all[i as int]);
                assert(all.skip(i as int).skip(1) =~= all.skip(i as int + 1));
            }
            if crate::text::same(&self.summaries[i].project_key, project_key)
                && crate::text::same(&self.summaries[i].session_id, session_id) {
                return i;
            }
            i = i + 1;
        }
        i
    }

    /// All entries for a key (empty if absent).
    pub fn get_entries(&self, key: &SessionKey) -> (r: Vec<SessionStoreEntry>)
        ensures
            member_lists(r@) == (match loaded(self@, key@) {
                Some(es) => es,
                None => Seq::empty(),
            }),
    {
        match self.load(key) {
            Some(entries) => entries,
            None => {
                let none: Vec<SessionStoreEntry> = Vec::new();
                proof {
                    assert(member_lists(none@) =~= Seq::<Members>::empty());
                }
                none
            },
        }
    }

    /// Number of stored main transcripts (keys with no subpath).
    pub fn size(&self) -> (r: usize)
        ensures
            r == main_count(self@.slots),
    {
        let ghost slots = self@.slots;
        let mut n: usize = 0;
        let mut i: usize = 0;
        proof {
            assert(slots.take(0) =~= Seq::<Slot>::empty());
        }
        while i < self.transcripts.len()
            invariant
                slots == slot_views(self.transcripts@),
                n <= i <= self.transcripts@.len(),
                n == main_count(slots.take(i as int)),
            decreases self.transcripts@.len() - i,
        {
            proof {
                assert(slots.take(i as int + 1).drop_last() =~= slots.take(i as int));
                assert(slots.take(i as int + 1).last() == slots[i as int]);
            }
            let pieces = crate::text::split(&self.transcripts[i].key, '/');
            proof {
                assert(text_views(pieces@).len() == pieces@.len());
            }
            if pieces.len() == 2 {
                n = n + 1;
            }
            i = i + 1;
        }
        proof {
            assert(slots.take(slots.len() as int) =~= slots);
        }
        n
    }

    /// Clears all stored data.
    pub fn clear(&mut self)
        ensures
            final(self)@ == (Memory {
                slots: Seq::empty(),
                sidecars: Seq::empty(),
                last_mtime: 0,
            }),
    {
        self.transcripts = Vec::new();
        self.summaries = Vec::new();
        self.last_mtime = 0;
        proof {
            assert(self@.slots =~= Seq::<Slot>::empty());
            assert(self@.sidecars =~= Seq::<Sidecar>::empty());
        }
    }

    /// Reports that every optional operation is implemented.
    pub fn capabilities(&self) -> (r: SessionStoreCapabilities)
        ensures
            r.list_sessions && r.list_session_summaries && r.delete && r.list_subkeys,
    {
        SessionStoreCapabilities {
            list_sessions: true,
            list_session_summaries: true,
            delete: true,
            list_subkeys: true,
        }
    }

    /// Brings the summary of a session up to date.
    fn append_summary(
        &mut self,
        key: &SessionKey,
        entries: &Vec<SessionStoreEntry>,
        mtime: i64,
    )
        ensures
            final(self)@.slots == old(self)@.slots,
            final(self)@.sidecars == sidecars_appended(
                old(self)@.sidecars,
                key@.project_key,
                key@.session_id,
                member_lists(entries@),
                mtime,
            ),
    {
        let i: usize = self.find_summary(&key.project_key, &key.session_id);
        let ghost before = self@.sidecars;
        let prev: Option<&SessionSummaryEntry> = if i < self.summaries.len() {
            Some(&self.summaries[i].summary)
        } else {
            None
        };
        let mut summary = fold_session_summary(prev, key, entries);
        summary.mtime = mtime;
        let now = StoredSummary {
            project_key: key.project_key.clone(),
            session_id: key.session_id.clone(),
            summary,
        };
        if i < self.summaries.len() {
            self.summaries.set(i, now);
        } else {
            self.summaries.push(now);
        }
        proof {
            assert(self@.sidecars =~= sidecars_appended(
                before,
                key@.project_key,
                key@.session_id,
                member_lists(entries@),
                mtime,
            ));
        }
    }

    /// Tells whether there is a later time left for another append.
    pub fn can_append(&self) -> (r: bool)
        ensures
            r == (self@.last_mtime < i64::MAX),
    {
        self.last_mtime < i64::MAX
    }

    /// Appends entries under a key, in call order, where the clock shows
    /// `now_ms`.
    pub fn append_at(&mut self, key: &SessionKey, entries: Vec<SessionStoreEntry>, now_ms: i64)
        requires
            entries@.len() == 0 || old(self)@.last_mtime < i64::MAX,
        ensures
            final(self)@ == appended(old(self)@, key@, member_lists(entries@), now_ms),
            is_orderly(old(self)@) ==> is_orderly(final(self)@),
    {
        let ghost start = self@;
        let ghost es = member_lists(entries@);
        proof {
            if is_orderly(start) {
                law_append_keeps_order(start, key@, es, now_ms);
            }
        }
        if entries.len() == 0 {
            return ;
        }
        let mtime: i64 = next_mtime(self.last_mtime, now_ms);
        self.last_mtime = mtime;
        let k = key.storage_key();
        if key.subpath.is_none() {
            self.append_summary(key, &entries, mtime);
        }
        let i: usize = self.find_transcript(&k);
        let ghost slots = self@.slots;
        if i < self.transcripts.len() {
            let mut all = copy_entries(&self.transcripts[i].entries);
            let ghost were = all@;
            let mut more = entries;
            let ghost added = more@;
            all.append(&mut more);
            proof {
                assert(all@ =~= were + added);
                assert(member_lists(all@) =~= member_lists(were) + member_lists(added));
            }
            self.transcripts.set(i, StoredTranscript { key: k, entries: all, mtime });
        } else {
            self.transcripts.push(StoredTranscript { key: k, entries, mtime });
        }
        self.last_mtime = mtime;
        proof {
            assert(self@.slots =~= slots_appended(slots, storage_text(key@), es, mtime));
        }
    }

    /// Appends entries under a key, in call order.
    pub fn append(&mut self, key: &SessionKey, entries: Vec<SessionStoreEntry>)
        requires
            entries@.len() == 0 || old(self)@.last_mtime < i64::MAX,
        ensures
            exists|now: i64|
                0 <= now && final(self)@ == #[trigger] appended(
                    old(self)@,
                    key@,
                    member_lists(entries@),
                    now,
                ),
            is_orderly(old(self)@) ==> is_orderly(final(self)@),
    {
        let now: i64 = crate::time::now_ms();
        self.append_at(key, entries, now);
    }

    /// Loads the entries under a key. Returns `None` for a key that was never
    /// written.
    pub fn load(&self, key: &SessionKey) -> (r: Option<Vec<SessionStoreEntry>>)
        ensures
            match r {
                Some(es) => loaded(self@, key@) == Some(member_lists(es@)),
                None => loaded(self@, key@) is None,
            },
    {
        let i: usize = self.find_transcript(&key.storage_key());
        if i < self.transcripts.len() {
            Some(copy_entries(&self.transcripts[i].entries))
        } else {
            None
        }
    }

    /// Lists the sessions of a project with their modification times.
    pub fn list_sessions(&self, project_key: &str) -> (r: Vec<SessionStoreListEntry>)
        ensures
            listing_views(r@) == listed(self@.slots, project_key@),
    {
        let prefix = crate::text::concat(project_key, "/");
        proof {
            reveal_strlit("/");
            assert("/"@ =~= seq!['/']);
        }
        let ghost slots = self@.slots;
        let mut out: Vec<SessionStoreListEntry> = Vec::new();
        let mut i: usize = 0;
        proof {
            assert(slots.take(0) =~= Seq::<Slot>::empty());
            assert(listing_views(out@) =~= Seq::<(Seq<char>, i64)>::empty());
        }
        while i < self.transcripts.len()
            invariant
                slots == slot_views(self.transcripts@),
                prefix@ == project_key@ + seq!['/'],
                i <= self.transcripts@.len(),
                listing_views(out@) == listed(slots.take(i as int), project_key@),
            decreases self.transcripts@.len() - i,
        {
            let ghost were = out@;
            proof {
                assert(slots.take(i as int + 1).drop_last() =~= slots.take(i as int));
                assert(slots.take(i as int + 1).last() == slots[i as int]);
            }
            match crate::text::strip_prefix(&self.transcripts[i].key, &prefix) {
                Some(rest) => {
                    if !crate::sessions::key::has_char(&rest, '/') {
                        let mtime: i64 = self.transcripts[i].mtime;
                        out.push(SessionStoreListEntry { session_id: rest, mtime });
                        proof {
                            assert(listing_views(out@) =~= listing_views(were).push(
                                (rest@, mtime),
                            ));
                        }
                    }
                },
                None => {},
            }
            i = i + 1;
        }
        proof {
            assert(slots.take(slots.len() as int) =~= slots);
        }
        out
    }

    /// Returns the incrementally-maintained summaries of a project.
    pub fn list_session_summaries(&self, project_key: &str) -> (r: Vec<SessionSummaryEntry>)
        ensures
            summary_views(r@) == project_summaries(self@.sidecars, project_key@),
    {
        let ghost all = self@.sidecars;
        let mut out: Vec<SessionSummaryEntry> = Vec::new();
        let mut i: usize = 0;
        proof {
            assert(all.take(0) =~= Seq::<Sidecar>::empty());
            assert(summary_views(out@) =~= Seq::<Summary>::empty());
        }
        while i < self.summaries.len()
            invariant
                all == sidecar_views(self.summaries@),
                i <= self.summaries@.len(),
                summary_views(out@) == project_summaries(all.take(i as int), project_key@),
            decreases self.summaries@.len() - i,
        {
            let ghost were = out@;
            proof {
                assert(all.take(i as int + 1).drop_last() =~= all.take(i as int));
                assert(all.take(i as int + 1).last() == all[i as int]);
            }
            if crate::text::same(&self.summaries[i].project_key, project_key) {
                let s = self.summaries[i].summary.clone();
                out.push(s);
                proof {
                    assert(summary_views(out@) =~= summary_views(were).push(s@));
                }
            }
            i = i + 1;
        }
        proof {
            assert(all.take(all.len() as int) =~= all);
        }
        out
    }

    /// Deletes a session. Deleting a main-transcript key cascades to subkeys;
    /// a key with a subpath removes only that one transcript.
    pub fn delete(&mut self, key: &SessionKey)
        ensures
            final(self)@ == deleted(old(self)@, key@),
            is_orderly(old(self)@) ==> is_orderly(final(self)@),
    {
        proof {
            if is_orderly(self@) {
                law_delete_keeps_order(self@, key@);
            }
        }
        let k = key.storage_key();
        let main: bool = key.subpath.is_none();
        let prefix = SessionListSubkeysKey::new(&key.project_key, &key.session_id).prefix();
        let ghost slots = self@.slots;
        let ghost sidecars = self@.sidecars;
        let ghost f = |s: Slot| !is_deleted_with(key@, s.key);
        let mut kept: Vec<StoredTranscript> = Vec::new();
        let mut i: usize = 0;
        let n: usize = self.transcripts.len();
        proof {
            reveal(Seq::filter);
            assert(slots.take(0) =~= Seq::<Slot>::empty());
            assert(slot_views(kept@) =~= slots.take(0).filter(f));
        }
        while i < n
            invariant
                slots == slot_views(self.transcripts@),
                n == self.transcripts@.len(),
                f == (|s: Slot| !is_deleted_with(key@, s.key)),
                k@ == storage_text(key@),
                main == (key@.subpath is None),
                prefix@ == prefix_text(key@.project_key, key@.session_id),
                i <= n,
                slot_views(kept@) == slots.take(i as int).filter(f),
            decreases n - i,
        {
            let ghost were = kept@;
            proof {
                reveal(Seq::filter);
                assert(slots.take(i as int + 1).drop_last() =~= slots.take(i as int));
                assert(slots.take(i as int + 1).last() == slots[i as int]);
            }
            let t = &self.transcripts[i];
            let goes: bool = crate::text::same(&t.key, &k) || (main && crate::text::starts_with(
                &t.key,
                &prefix,
            ));
            if !goes {
                let copy = StoredTranscript {
                    key: t.key.clone(),
                    entries: copy_entries(&t.entries),
                    mtime: t.mtime,
                };
                kept.push(copy);
                proof {
                    assert(slot_views(kept@) =~= slot_views(were).push(slots[i as int]));
                }
            }
            i = i + 1;
        }
        proof {
            assert(slots.take(slots.len() as int) =~= slots);
        }
        self.transcripts = kept;
        if main {
            let ghost g = |s: Sidecar|
                !(s.project_key == key@.project_key && s.session_id == key@.session_id);
            let mut left: Vec<StoredSummary> = Vec::new();
            let mut j: usize = 0;
            let m: usize = self.summaries.len();
            proof {
                reveal(Seq::filter);
                assert(sidecars.take(0) =~= Seq::<Sidecar>::empty());
                assert(sidecar_views(left@) =~= sidecars.take(0).filter(g));
            }
            while j < m
                invariant
                    sidecars == sidecar_views(self.summaries@),
                    m == self.summaries@.len(),
                    g == (|s: Sidecar|
                        !(s.project_key == key@.project_key && s.session_id == key@.session_id)),
                    j <= m,
                    sidecar_views(left@) == sidecars.take(j as int).filter(g),
                decreases m - j,
            {
                let ghost were = left@;
                proof {
                    reveal(Seq::filter);
                    assert(sidecars.take(j as int + 1).drop_last() =~= sidecars.take(j as int));
                    assert(sidecars.take(j as int + 1).last() == sidecars[j as int]);
                }
                let s = &self.summaries[j];
                let goes: bool = crate::text::same(&s.project_key, &key.project_key)
                    && crate::text::same(&s.session_id, &key.session_id);
                if !goes {
                    let copy = StoredSummary {
                        project_key: s.project_key.clone(),
                        session_id: s.session_id.clone(),
                        summary: s.summary.clone(),
                    };
                    left.push(copy);
                    proof {
                        assert(sidecar_views(left@) =~= sidecar_views(were).push(
                            sidecars[j as int],
                        ));
                    }
                }
                j = j + 1;
            }
            proof {
                assert(sidecars.take(sidecars.len() as int) =~= sidecars);
            }
            self.summaries = left;
        }
    }

    /// Lists all subpath keys under a session.
    pub fn list_subkeys(&self, key: &SessionListSubkeysKey) -> (r: Vec<String>)
        ensures
            text_views(r@) == subpaths(self@.slots, key.project_key@, key.session_id@),
    {
        let prefix = key.prefix();
        let ghost slots = self@.slots;
        let mut out: Vec<String> = Vec::new();
        let mut i: usize = 0;
        proof {
            assert(slots.take(0) =~= Seq::<Slot>::empty());
            assert(text_views(out@) =~= Seq::<Seq<char>>::empty());
        }
        while i < self.transcripts.len()
            invariant
                slots == slot_views(self.transcripts@),
                prefix@ == prefix_text(key.project_key@, key.session_id@),
                i <= self.transcripts@.len(),
                text_views(out@) == subpaths(
                    slots.take(i as int),
                    key.project_key@,
                    key.session_id@,
                ),
            decreases self.transcripts@.len() - i,
        {
            let ghost were = out@;
            proof {
                assert(slots.take(i as int + 1).drop_last() =~= slots.take(i as int));
                assert(slots.take(i as int + 1).last() == slots[i as int]);
            }
            match crate::text::strip_prefix(&self.transcripts[i].key, &prefix) {
                Some(rest) => {
                    out.push(rest);
                    proof {
                        assert(text_views(out@) =~= text_views(were).push(rest@));
                    }
                },
                None => {},
            }
            i = i + 1;
        }
        proof {
            assert(slots.take(slots.len() as int) =~= slots);
        }
        out
    }
}

// ---------------------------------------------------------------------------
// What a write and a deletion leave alone
// ---------------------------------------------------------------------------

/// The deletion of a session leaves the transcripts of every other session.
pub proof fn law_delete_leaves_other_sessions(m: Memory, k: Key, other: Key)
    requires
        !k.project_key.contains('/') && !k.session_id.contains('/'),
        !other.project_key.contains('/') && !other.session_id.contains('/'),
        other.project_key != k.project_key || other.session_id != k.session_id,
    ensures
        loaded(deleted(m, k), other) == loaded(m, other),
{
    let key = storage_text(other);
    if key == storage_text(k) {
        crate::sessions::key::law_storage_key_is_unique(other, k);
    }
    let p = prefix_text(k.project_key, k.session_id);
    if p.is_prefix_of(key) {
        let s = key.skip(p.len() as int);
        let below = Key { project_key: k.project_key, session_id: k.session_id, subpath: Some(s) };
        crate::sessions::key::law_subkeys_share_the_prefix(k.project_key, k.session_id, s);
        assert(storage_text(below) =~= key);
        crate::sessions::key::law_storage_key_is_unique(below, other);
    }
    law_load_after_delete(m, k, other);
}

/// A write to a session leaves the other sessions of its project listed as
/// they were.
pub proof fn law_other_sessions_stay_listed(
    m: Memory,
    k: Key,
    entries: Seq<Members>,
    now: i64,
    id: Seq<char>,
    mtime: i64,
)
    requires
        k.subpath is None,
        !k.session_id.contains('/'),
        id != k.session_id,
    ensures
        listed(appended(m, k, entries, now).slots, k.project_key).contains((id, mtime)) <==> listed(
            m.slots,
            k.project_key,
        ).contains((id, mtime)),
{
    let n = appended(m, k, entries, now);
    let key = storage_text(k);
    let project = k.project_key;
    lemma_slot_index(m.slots, key);
    lemma_main_session(project, k.session_id);
    assert(k == Key { project_key: project, session_id: k.session_id, subpath: None });
    lemma_listed(m.slots, project, id, mtime);
    lemma_listed(n.slots, project, id, mtime);
    if entries.len() > 0 {
        let at = slot_index(m.slots, key);
        if listed(m.slots, project).contains((id, mtime)) {
            let i = choose|i: int|
                0 <= i < m.slots.len() && main_session((#[trigger] m.slots[i]).key, project)
                    == Some(id) && m.slots[i].mtime == mtime;
            assert(i != at);
            assert(n.slots[i] == m.slots[i]);
        }
        if listed(n.slots, project).contains((id, mtime)) {
            let i = choose|i: int|
                0 <= i < n.slots.len() && main_session((#[trigger] n.slots[i]).key, project)
                    == Some(id) && n.slots[i].mtime == mtime;
            assert(i != at);
            assert(n.slots[i] == m.slots[i]);
        }
    }
}

/// The time of a write is the clock's where that is later than the last write,
/// and else one millisecond behind the last write.
pub proof fn law_time_of_a_write(m: Memory, k: Key, entries: Seq<Members>, now: i64)
    requires
        entries.len() > 0,
        m.last_mtime < i64::MAX,
    ensures
        appended(m, k, entries, now).last_mtime == if now > m.last_mtime {
            now as int
        } else {
            m.last_mtime + 1
        },
{
}

/// A write to the main transcript of a session folds the entries into the
/// summary of the session, from what it held before, and leaves all other
/// summaries. `i` is the place of the session's summary, or the number of
/// summaries where it has none.
pub proof fn law_summary_after_append(
    m: Memory,
    k: Key,
    entries: Seq<Members>,
    now: i64,
    i: int,
)
    requires
        k.subpath is None,
        entries.len() > 0,
        0 <= i <= m.sidecars.len(),
        i < m.sidecars.len() ==> m.sidecars[i].project_key == k.project_key
            && m.sidecars[i].session_id == k.session_id,
        forall|j: int|
            0 <= j < i ==> (#[trigger] m.sidecars[j]).project_key != k.project_key
                || m.sidecars[j].session_id != k.session_id,
    ensures
        ({
            let n = appended(m, k, entries, now);
            if i < m.sidecars.len() {
                let was = m.sidecars[i].summary;
                n.sidecars == m.sidecars.update(
                    i,
                    Sidecar {
                        project_key: k.project_key,
                        session_id: k.session_id,
                        summary: Summary {
                            session_id: was.session_id,
                            mtime: n.last_mtime,
                            data: crate::sessions::summary::fold_entries(was.data, entries),
                        },
                    },
                )
            } else {
                n.sidecars == m.sidecars.push(
                    Sidecar {
                        project_key: k.project_key,
                        session_id: k.session_id,
                        summary: Summary {
                            session_id: k.session_id,
                            mtime: n.last_mtime,
                            data: crate::sessions::summary::fold_entries(Seq::empty(), entries),
                        },
                    },
                )
            }
        }),
{
    lemma_sidecar_index(m.sidecars, k.project_key, k.session_id);
    let at = sidecar_index(m.sidecars, k.project_key, k.session_id);
    if at < i {
        assert(m.sidecars[at].project_key != k.project_key || m.sidecars[at].session_id
            != k.session_id);
    }
    if i < at {
        assert(!(m.sidecars[i].project_key == k.project_key && m.sidecars[i].session_id
            == k.session_id));
    }
}

/// The summaries of a project are those of its sessions, one by one and in
/// order, and no others. The number of sessions counts the keys of main
/// transcripts: those with one slash.
pub proof fn law_summaries_and_sessions_are_counted(
    a: Seq<Sidecar>,
    b: Seq<Sidecar>,
    s: Sidecar,
    project_key: Seq<char>,
    c: Seq<Slot>,
    slot: Slot,
)
    ensures
        project_summaries(a + b, project_key) == project_summaries(a, project_key)
            + project_summaries(b, project_key),
        project_summaries(seq![s], project_key) == if s.project_key == project_key {
            seq![s.summary]
        } else {
            Seq::empty()
        },
        main_count(Seq::empty()) == 0,
        main_count(c.push(slot)) == main_count(c) + if split_on(slot.key, '/').len() == 2 {
            1int
        } else {
            0int
        },
    decreases b.len(),
{
    let none = Seq::<Summary>::empty();
    assert(c.push(slot).drop_last() =~= c);
    assert(seq![s].drop_last() =~= Seq::<Sidecar>::empty());
    assert(seq![s].last() == s);
    assert(project_summaries(seq![s].drop_last(), project_key) =~= none);
    assert(none.push(s.summary) =~= seq![s.summary]);
    if b.len() > 0 {
        law_summaries_and_sessions_are_counted(a, b.drop_last(), s, project_key, c, slot);
        assert((a + b).drop_last() =~= a + b.drop_last());
        assert((a + b).last() == b.last());
        assert(project_summaries(a + b, project_key) =~= project_summaries(a, project_key)
            + project_summaries(b, project_key));
    } else {
        assert(a + b =~= a);
        assert(project_summaries(a, project_key) + project_summaries(b, project_key)
            =~= project_summaries(a, project_key));
    }
}

/// The metadata of a session says what its fields say.
pub proof fn law_metadata_says_its_fields(x: SDKSessionInfo)
    ensures
        x@.session_id == x.session_id@,
        x@.summary == x.summary@,
        x@.last_modified == x.last_modified,
        x@.file_size == x.file_size,
        x@.custom_title is Some == x.custom_title is Some,
        x.custom_title matches Some(t) ==> x@.custom_title == Some(t@),
        x@.first_prompt is Some == x.first_prompt is Some,
        x.first_prompt matches Some(t) ==> x@.first_prompt == Some(t@),
        x@.git_branch is Some == x.git_branch is Some,
        x.git_branch matches Some(t) ==> x@.git_branch == Some(t@),
        x@.cwd is Some == x.cwd is Some,
        x.cwd matches Some(t) ==> x@.cwd == Some(t@),
        x@.tag is Some == x.tag is Some,
        x.tag matches Some(t) ==> x@.tag == Some(t@),
        x@.created_at == x.created_at,
{
}

} // verus!
