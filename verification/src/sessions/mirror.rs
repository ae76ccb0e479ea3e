//! The queue between the frames of a mirrored transcript and a store.
//!
//! Frames name a transcript file and carry entries. They are gathered, and
//! flushed at the end of a turn or when too much is pending: one append for
//! each file, in the order in which the files were first seen. An append that
//! fails is tried again after a short wait; one that times out is not, since
//! it may still land.
use serde_json::{Map as JsonMap, Value};
use vstd::prelude::*;

use crate::json::{json, jsons, member_lists, members, pairs, printed, Json, Members};
use crate::sessions::key::{Key, SessionKey};
use crate::sessions::store::SessionStoreEntry;
use crate::sessions::windows::{file_key_on, file_path_to_session_key_on};
use crate::text::{concat3, same, text_views, to_chars};

verus! {

broadcast use vstd::string::group_string_axioms;

/// More pending entries than this call for a flush.
pub const MAX_PENDING_ENTRIES: usize = 500;

/// More pending bytes than this (1 MiB) call for a flush.
pub const MAX_PENDING_BYTES: usize = 1_048_576;

/// How often an append is tried.
pub const MIRROR_APPEND_MAX_ATTEMPTS: usize = 3;

// ---------------------------------------------------------------------------
// The size of entries
// ---------------------------------------------------------------------------

/// A count, at most `usize::MAX`.
pub open spec fn capped(n: int) -> usize {
    if n > usize::MAX {
        usize::MAX
    } else {
        n as usize
    }
}

/// Adds to a count. The count stays at `usize::MAX` once it is there.
fn add_capped(acc: &mut usize, n: usize)
    ensures
        *final(acc) == capped(*old(acc) + n),
{
    if n > usize::MAX - *acc {
        *acc = usize::MAX;
    } else {
        *acc = *acc + n;
    }
}

/// The bytes of a character in a JSON string that is kept to ASCII: two for
/// the short escapes, six for `\uXXXX`, twelve for a pair of those.
pub open spec fn char_size(c: char) -> nat {
    let n = c as u32;
    if c == '"' || c == '\\' || c == '\n' || c == '\r' || c == '\t' || n == 8 || n == 12 {
        2
    } else if n < 0x20 {
        6
    } else if n < 0x80 {
        1
    } else if n <= 0xFFFF {
        6
    } else {
        12
    }
}

/// The bytes of the characters of a text.
pub open spec fn chars_size(s: Seq<char>) -> nat
    decreases s.len(),
{
    if s.len() == 0 {
        0
    } else {
        chars_size(s.drop_last()) + char_size(s.last())
    }
}

/// The bytes of a value written as JSON in ASCII, with a blank behind each
/// comma and colon.
pub open spec fn value_size(j: Json) -> nat
    decreases j, 0int,
{
    match j {
        Json::Null => 4,
        Json::Bool(b) => if b {
            4
        } else {
            5
        },
        Json::Number(_) => printed(j).len(),
        Json::Str(s) => 2 + chars_size(s),
        Json::Array(s) => 2 + items_size(s, s.len() as int),
        Json::Object(m) => 2 + members_size(m, m.len() as int),
    }
}

/// The bytes of the first `n` elements of an array and of what parts them.
pub open spec fn items_size(s: Seq<Json>, n: int) -> nat
    decreases s, n,
{
    if n <= 0 || n > s.len() {
        0
    } else {
        items_size(s, n - 1) + gap_size(n) + value_size(s[n - 1])
    }
}

/// The bytes of the first `n` members of an object and of what parts them.
pub open spec fn members_size(m: Members, n: int) -> nat
    decreases m, n,
{
    if n <= 0 || n > m.len() {
        0
    } else {
        members_size(m, n - 1) + gap_size(n) + (2 + chars_size(m[n - 1].0)) + 2 + value_size(
            m[n - 1].1,
        )
    }
}

/// The bytes in front of the `n`th element: a comma and a blank, but for the
/// first.
pub open spec fn gap_size(n: int) -> nat {
    if n > 1 {
        2
    } else {
        0
    }
}

/// The bytes of the first `n` entries of a list and of what parts them.
pub open spec fn entries_size(es: Seq<Members>, n: int) -> nat
    decreases n,
{
    if n <= 0 || n > es.len() {
        0
    } else {
        entries_size(es, n - 1) + gap_size(n) + value_size(Json::Object(es[n - 1]))
    }
}

/// The bytes of a list of entries.
pub open spec fn list_size(es: Seq<Members>) -> nat {
    2 + entries_size(es, es.len() as int)
}

/// The bytes of a character in a JSON string that is kept to ASCII.
fn char_len(c: char) -> (r: usize)
    ensures
        r == char_size(c),
{
    let n: u32 = c as u32;
    if c == '"' || c == '\\' || c == '\n' || c == '\r' || c == '\t' || n == 8 || n == 12 {
        2
    } else if n < 0x20 {
        6
    } else if n < 0x80 {
        1
    } else if n <= 0xFFFF {
        6
    } else {
        12
    }
}

/// Adds the bytes of a text as a JSON string in ASCII.
pub fn json_dumps_len_string(s: &str, acc: &mut usize)
    ensures
        *final(acc) == capped(*old(acc) + 2 + chars_size(s@)),
{
    let ghost start = *acc;
    let cs = to_chars(s);
    add_capped(acc, 2);
    let mut i: usize = 0;
    proof {
        assert(s@.take(0) =~= Seq::<char>::empty());
    }
    while i < cs.len()
        invariant
            cs@ == s@,
            i <= cs@.len(),
            *acc == capped(start + 2 + chars_size(s@.take(i as int))),
        decreases cs@.len() - i,
    {
        proof {
            assert(s@.take(i as int + 1).drop_last() =~= s@.take(i as int));
            assert(s@.take(i as int + 1).last() == cs@[i as int]);
        }
        add_capped(acc, char_len(cs[i]));
        i = i + 1;
    }
    proof {
        assert(s@.take(s@.len() as int) =~= s@);
    }
}

/// Adds the bytes of a value.
pub fn json_dumps_len_value(value: &Value, acc: &mut usize)
    ensures
        *final(acc) == capped(*old(acc) + value_size(json(*value))),
    decreases json(*value), 0int,
{
    if value.is_null() {
        add_capped(acc, 4);
        return ;
    }
    match value.as_bool() {
        Some(b) => {
            add_capped(
                acc,
                if b {
                    4
                } else {
                    5
                },
            );
            return ;
        },
        None => {},
    }
    match value.as_str() {
        Some(s) => {
            json_dumps_len_string(s, acc);
            return ;
        },
        None => {},
    }
    match value.as_array() {
        Some(items) => {
            json_dumps_len_array(items, acc);
            return ;
        },
        None => {},
    }
    match value.as_object() {
        Some(m) => {
            json_dumps_len_object(m, acc);
            return ;
        },
        None => {},
    }
    let digits = crate::json::print(value);
    add_capped(acc, to_chars(&digits).len());
}

/// Adds the bytes of an array.
pub fn json_dumps_len_array(items: &Vec<Value>, acc: &mut usize)
    ensures
        *final(acc) == capped(
            *old(acc) + 2 + items_size(jsons(items@), items@.len() as int),
        ),
    decreases jsons(items@), items@.len() + 1,
{
    let ghost start = *acc;
    let ghost all = jsons(items@);
    add_capped(acc, 2);
    let mut i: usize = 0;
    while i < items.len()
        invariant
            all == jsons(items@),
            i <= items@.len(),
            *acc == capped(start + 2 + items_size(all, i as int)),
        decreases items@.len() - i,
    {
        if i > 0 {
            add_capped(acc, 2);
        }
        proof {
            assert(all[i as int] == json(items@[i as int]));
        }
        json_dumps_len_value(&items[i], acc);
        i = i + 1;
    }
}

/// Adds the bytes of an object.
pub fn json_dumps_len_object(map: &JsonMap<String, Value>, acc: &mut usize)
    ensures
        *final(acc) == capped(
            *old(acc) + 2 + members_size(members(*map), members(*map).len() as int),
        ),
    decreases members(*map), members(*map).len() + 1,
{
    let ghost start = *acc;
    let ghost all = members(*map);
    let list = pairs(map);
    add_capped(acc, 2);
    let mut i: usize = 0;
    while i < list.len()
        invariant
            all == members(*map),
            list@.len() == all.len(),
            forall|j: int|
                0 <= j < list@.len() ==> (#[trigger] list@[j]).0@ == all[j].0 && json(*list@[j].1)
                    == all[j].1,
            i <= list@.len(),
            *acc == capped(start + 2 + members_size(all, i as int)),
        decreases list@.len() - i,
    {
        if i > 0 {
            add_capped(acc, 2);
        }
        proof {
            assert(list@[i as int].0@ == all[i as int].0);
        }
        json_dumps_len_string(list[i].0.as_str(), acc);
        add_capped(acc, 2);
        json_dumps_len_value(list[i].1, acc);
        i = i + 1;
    }
}

/// Adds the bytes of a list of entries.
pub fn json_dumps_len_list(entries: &Vec<SessionStoreEntry>, acc: &mut usize)
    ensures
        *final(acc) == capped(*old(acc) + list_size(member_lists(entries@))),
{
    let ghost start = *acc;
    let ghost all = member_lists(entries@);
    add_capped(acc, 2);
    let mut i: usize = 0;
    while i < entries.len()
        invariant
            all == member_lists(entries@),
            i <= entries@.len(),
            *acc == capped(start + 2 + entries_size(all, i as int)),
        decreases entries@.len() - i,
    {
        if i > 0 {
            add_capped(acc, 2);
        }
        proof {
            assert(all[i as int] == members(entries@[i as int]));
        }
        json_dumps_len_object(&entries[i], acc);
        i = i + 1;
    }
}

// ---------------------------------------------------------------------------
// Pending frames
// ---------------------------------------------------------------------------

/// A frame of a mirrored transcript.
#[derive(Debug)]
pub struct MirrorEntry {
    /// The transcript file.
    pub file_path: String,
    /// The entries that were written to it.
    pub entries: Vec<SessionStoreEntry>,
}

/// Entries of a file.
pub type Bucket = (Seq<char>, Seq<Members>);

/// The contents of frames.
pub open spec fn frames_of(v: Seq<MirrorEntry>) -> Seq<Bucket> {
    Seq::new(v.len(), |i: int| (v[i].file_path@, member_lists(v[i].entries@)))
}

/// How many entries frames carry.
pub open spec fn count_of(frames: Seq<Bucket>) -> nat
    decreases frames.len(),
{
    if frames.len() == 0 {
        0
    } else {
        count_of(frames.drop_last()) + frames.last().1.len()
    }
}

/// How many bytes the entries of frames take.
pub open spec fn size_of_frames(frames: Seq<Bucket>) -> nat
    decreases frames.len(),
{
    if frames.len() == 0 {
        0
    } else {
        size_of_frames(frames.drop_last()) + list_size(frames.last().1)
    }
}

/// The frames that were not flushed yet.
#[derive(Debug)]
pub struct Pending {
    items: Vec<MirrorEntry>,
    entries: usize,
    bytes: usize,
}

impl View for Pending {
    type V = Seq<Bucket>;

    closed spec fn view(&self) -> Seq<Bucket> {
        frames_of(self.items@)
    }
}

impl Default for Pending {
    /// No frames.
    fn default() -> (r: Self)
        ensures
            r@ == Seq::<Bucket>::empty(),
    {
        let items: Vec<MirrorEntry> = Vec::new();
        proof {
            assert(frames_of(items@) =~= Seq::empty());
        }
        Pending { items, entries: 0, bytes: 0 }
    }
}

impl Pending {
    /// The counts are those of the frames.
    #[verifier::type_invariant]
    spec fn is_counted(self) -> bool {
        self.entries == capped(count_of(self@) as int) && self.bytes == capped(
            size_of_frames(self@) as int,
        )
    }

    /// Adds a frame, and tells whether more is pending than the thresholds
    /// allow: then the frames are to be flushed in the background.
    ///
    /// With thresholds of zero every frame is to be flushed at once.
    pub fn enqueue(
        &mut self,
        file_path: &str,
        entries: Vec<SessionStoreEntry>,
        max_entries: usize,
        max_bytes: usize,
    ) -> (r: bool)
        ensures
            final(self)@ == old(self)@.push((file_path@, member_lists(entries@))),
            r == (capped(count_of(final(self)@) as int) > max_entries || capped(
                size_of_frames(final(self)@) as int,
            ) > max_bytes),
    {
        let ghost before = self@;
        let ghost es = member_lists(entries@);
        let mut all = Pending::default();
        std::mem::swap(self, &mut all);
        proof {
            use_type_invariant(&all);
        }
        let mut size: usize = 0;
        json_dumps_len_list(&entries, &mut size);
        let n: usize = entries.len();
        let mut items = all.items;
        let mut count: usize = all.entries;
        let mut bytes: usize = all.bytes;
        items.push(MirrorEntry { file_path: file_path.to_owned(), entries });
        add_capped(&mut count, n);
        add_capped(&mut bytes, size);
        proof {
            assert(frames_of(items@) =~= before.push((file_path@, es)));
            assert(frames_of(items@).drop_last() =~= before);
        }
        *self = Pending { items, entries: count, bytes };
        count > max_entries || bytes > max_bytes
    }

    /// Takes all frames out.
    pub fn take(&mut self) -> (r: Vec<MirrorEntry>)
        ensures
            final(self)@ == Seq::<Bucket>::empty(),
            frames_of(r@) == old(self)@,
    {
        let mut all = Pending::default();
        std::mem::swap(self, &mut all);
        all.items
    }
}

/// With thresholds of zero any frame calls for a flush, even one without
/// entries.
pub proof fn law_eager_frames_call_for_a_flush(
    frames: Seq<Bucket>,
    file_path: Seq<char>,
    entries: Seq<Members>,
)
    ensures
        capped(size_of_frames(frames.push((file_path, entries))) as int) > 0,
{
    assert(frames.push((file_path, entries)).drop_last() =~= frames);
}

// ---------------------------------------------------------------------------
// Coalescing
// ---------------------------------------------------------------------------

/// The first bucket of a file, or the number of buckets.
pub open spec fn bucket_index(buckets: Seq<Bucket>, file_path: Seq<char>) -> int
    decreases buckets.len(),
{
    if buckets.len() == 0 || buckets[0].0 == file_path {
        0
    } else {
        1 + bucket_index(buckets.skip(1), file_path)
    }
}

/// Puts entries into the bucket of their file: behind what the bucket holds,
/// or into a new bucket at the end.
pub open spec fn poured(buckets: Seq<Bucket>, frame: Bucket) -> Seq<Bucket> {
    let i = bucket_index(buckets, frame.0);
    if i < buckets.len() {
        buckets.update(i, (frame.0, buckets[i].1 + frame.1))
    } else {
        buckets.push(frame)
    }
}

/// Frames as one bucket for each file.
pub open spec fn coalesced(frames: Seq<Bucket>) -> Seq<Bucket>
    decreases frames.len(),
{
    if frames.len() == 0 {
        Seq::empty()
    } else {
        poured(coalesced(frames.drop_last()), frames.last())
    }
}

/// What a bucket's position means.
proof fn lemma_bucket_index(buckets: Seq<Bucket>, file_path: Seq<char>)
    ensures
        0 <= bucket_index(buckets, file_path) <= buckets.len(),
        bucket_index(buckets, file_path) < buckets.len() ==> buckets[bucket_index(
            buckets,
            file_path,
        )].0 == file_path,
        forall|j: int|
            0 <= j < bucket_index(buckets, file_path) ==> (#[trigger] buckets[j]).0 != file_path,
    decreases buckets.len(),
{
    if buckets.len() > 0 && buckets[0].0 != file_path {
        lemma_bucket_index(buckets.skip(1), file_path);
        assert forall|j: int| 0 <= j < bucket_index(buckets, file_path) implies (
        #[trigger] buckets[j]).0 != file_path by {
            if j > 0 {
                assert(buckets.skip(1)[j - 1] == buckets[j]);
            }
        }
    }
}

/// The first bucket of a file.
fn find_bucket(buckets: &Vec<MirrorEntry>, file_path: &str) -> (r: usize)
    ensures
        r == bucket_index(frames_of(buckets@), file_path@),
        r <= buckets@.len(),
{
    let ghost all = frames_of(buckets@);
    let mut i: usize = 0;
    proof {
        assert(all.skip(0) =~= all);
    }
    while i < buckets.len()
        invariant
            all == frames_of(buckets@),
            i <= buckets@.len(),
            bucket_index(all, file_path@) == i + bucket_index(all.skip(i as int), file_path@),
        decreases buckets@.len() - i,
    {
        proof {
            assert(all.skip(i as int)[0] == all[i as int]);
            assert(all.skip(i as int).skip(1) =~= all.skip(i as int + 1));
        }
        if same(&buckets[i].file_path, file_path) {
            return i;
        }
        i = i + 1;
    }
    i
}

/// Frames as one bucket for each file, in the order in which the files were
/// first seen, with the entries in the order in which they were queued.
pub fn coalesce(items: &Vec<MirrorEntry>) -> (r: Vec<MirrorEntry>)
    ensures
        frames_of(r@) == coalesced(frames_of(items@)),
{
    let ghost all = frames_of(items@);
    let mut out: Vec<MirrorEntry> = Vec::new();
    let mut i: usize = 0;
    proof {
        assert(frames_of(out@) =~= coalesced(all.take(0)));
    }
    while i < items.len()
        invariant
            all == frames_of(items@),
            i <= items@.len(),
            frames_of(out@) == coalesced(all.take(i as int)),
        decreases items@.len() - i,
    {
        let ghost were = out@;
        let ghost frame = all[i as int];
        let mut entries = crate::sessions::store::copy_entries(&items[i].entries);
        proof {
            assert(all.take(i as int + 1).drop_last() =~= all.take(i as int));
            assert(all.take(i as int + 1).last() == frame);
        }
        let at = find_bucket(&out, &items[i].file_path);
        if at < out.len() {
            let ghost held = member_lists(out@[at as int].entries@);
            let mut bucket = out.remove(at);
            bucket.entries.append(&mut entries);
            proof {
                assert(member_lists(bucket.entries@) =~= held + frame.1);
            }
            out.insert(at, bucket);
            proof {
                lemma_bucket_index(frames_of(were), frame.0);
                assert(out@ =~= were.update(at as int, bucket));
                assert(frames_of(out@) =~= poured(frames_of(were), frame));
            }
        } else {
            out.push(MirrorEntry { file_path: items[i].file_path.clone(), entries });
            proof {
                assert(frames_of(out@) =~= frames_of(were).push(frame));
            }
        }
        i = i + 1;
    }
    proof {
        assert(all.take(all.len() as int) =~= all);
    }
    out
}

/// The entries of a file in frames, in their order.
pub open spec fn entries_for(frames: Seq<Bucket>, file_path: Seq<char>) -> Seq<Members>
    decreases frames.len(),
{
    if frames.len() == 0 {
        Seq::empty()
    } else {
        entries_for(frames.drop_last(), file_path) + if frames.last().0 == file_path {
            frames.last().1
        } else {
            Seq::empty()
        }
    }
}

/// The files of frames, each once, in the order in which they were first seen.
pub open spec fn files_of(frames: Seq<Bucket>) -> Seq<Seq<char>>
    decreases frames.len(),
{
    if frames.len() == 0 {
        Seq::empty()
    } else {
        let before = files_of(frames.drop_last());
        if before.contains(frames.last().0) {
            before
        } else {
            before.push(frames.last().0)
        }
    }
}

/// Coalescing neither loses, nor adds, nor reorders the entries of a file:
/// there is one bucket for each file, in the order in which the files were
/// first seen, and it holds the file's entries in the order in which they were
/// queued.
pub proof fn law_coalescing_keeps_entries(frames: Seq<Bucket>)
    ensures
        coalesced(frames).len() == files_of(frames).len(),
        forall|i: int|
            0 <= i < coalesced(frames).len() ==> #[trigger] coalesced(frames)[i] == (
                files_of(frames)[i],
                entries_for(frames, files_of(frames)[i]),
            ),
        forall|i: int, j: int|
            0 <= i < j < files_of(frames).len() ==> #[trigger] files_of(frames)[i]
                != #[trigger] files_of(frames)[j],
        forall|p: Seq<char>|
            !files_of(frames).contains(p) ==> #[trigger] entries_for(frames, p) == Seq::<
                Members,
            >::empty(),
    decreases frames.len(),
{
    if frames.len() > 0 {
        let front = frames.drop_last();
        let frame = frames.last();
        law_coalescing_keeps_entries(front);
        let b = coalesced(front);
        let f = files_of(front);
        let at = bucket_index(b, frame.0);
        lemma_bucket_index(b, frame.0);
        if at < b.len() {
            assert(b[at].0 == f[at]);
            assert(f.contains(frame.0));
        } else if f.contains(frame.0) {
            let k = choose|k: int| 0 <= k < f.len() && f[k] == frame.0;
            assert(b[k].0 == f[k]);
        }
        let c = coalesced(frames);
        let g = files_of(frames);
        assert forall|i: int| 0 <= i < c.len() implies #[trigger] c[i] == (
            g[i],
            entries_for(frames, g[i]),
        ) by {
            if i < b.len() {
                assert(b[i] == (f[i], entries_for(front, f[i])));
                assert(g[i] == f[i]);
                if f[i] == frame.0 {
                    assert(i == at) by {
                        if i != at {
                            assert(at < b.len());
                            assert(f[at] == f[i]);
                        }
                    }
                } else {
                    assert(entries_for(frames, f[i]) =~= entries_for(front, f[i]));
                }
            } else {
                assert(entries_for(front, frame.0) == Seq::<Members>::empty());
                assert(entries_for(frames, frame.0) =~= frame.1);
            }
        }
        assert forall|p: Seq<char>| !g.contains(p) implies #[trigger] entries_for(frames, p)
            == Seq::<Members>::empty() by {
            if f.contains(p) {
                let k = choose|k: int| 0 <= k < f.len() && f[k] == p;
                assert(g[k] == p);
            }
            if p == frame.0 {
                assert(g[g.len() - 1] == p || f.contains(p));
            }
            assert(entries_for(front, p) == Seq::<Members>::empty());
        }
        assert forall|i: int, j: int| 0 <= i < j < g.len() implies #[trigger] g[i]
            != #[trigger] g[j] by {
            assert(g[i] == f[i]);
            if j < f.len() {
                assert(g[j] == f[j]);
            } else {
                assert(f.contains(f[i]));
            }
        }
    }
}

/// An append that a flush makes.
#[derive(Debug)]
pub struct MirrorAppend {
    /// Where to.
    pub key: SessionKey,
    /// The transcript file.
    pub file_path: String,
    /// What.
    pub entries: Vec<SessionStoreEntry>,
}

/// The contents of appends.
pub open spec fn append_views(v: Seq<MirrorAppend>) -> Seq<(Key, Seq<char>, Seq<Members>)> {
    Seq::new(v.len(), |i: int| (v[i].key@, v[i].file_path@, member_lists(v[i].entries@)))
}

/// The appends for buckets: none for a bucket without entries, and none for a
/// file that is no transcript under the projects directory.
pub open spec fn appends_for(
    buckets: Seq<Bucket>,
    projects_dir: Seq<char>,
    windows: bool,
) -> Seq<(Key, Seq<char>, Seq<Members>)>
    decreases buckets.len(),
{
    if buckets.len() == 0 {
        Seq::empty()
    } else {
        let before = appends_for(buckets.drop_last(), projects_dir, windows);
        let b = buckets.last();
        match file_key_on(b.0, projects_dir, windows) {
            Some(key) if b.1.len() > 0 => before.push((key, b.0, b.1)),
            _ => before,
        }
    }
}

/// The appends of a flush, in the order in which the files were first seen.
/// `windows` tells how the system writes paths.
pub fn plan_flush(items: &Vec<MirrorEntry>, projects_dir: &str, windows: bool) -> (r: Vec<
    MirrorAppend,
>)
    ensures
        append_views(r@) == appends_for(coalesced(frames_of(items@)), projects_dir@, windows),
{
    let buckets = coalesce(items);
    let ghost all = frames_of(buckets@);
    let mut out: Vec<MirrorAppend> = Vec::new();
    let mut i: usize = 0;
    proof {
        assert(append_views(out@) =~= appends_for(all.take(0), projects_dir@, windows));
    }
    while i < buckets.len()
        invariant
            all == frames_of(buckets@),
            i <= buckets@.len(),
            append_views(out@) == appends_for(all.take(i as int), projects_dir@, windows),
        decreases buckets@.len() - i,
    {
        let ghost were = out@;
        proof {
            assert(all.take(i as int + 1).drop_last() =~= all.take(i as int));
            assert(all.take(i as int + 1).last() == all[i as int]);
        }
        if buckets[i].entries.len() > 0 {
            match file_path_to_session_key_on(&buckets[i].file_path, projects_dir, windows) {
                Some(key) => {
                    out.push(
                        MirrorAppend {
                            key,
                            file_path: buckets[i].file_path.clone(),
                            entries: crate::sessions::store::copy_entries(&buckets[i].entries),
                        },
                    );
                    proof {
                        assert(append_views(out@) =~= append_views(were).push(
                            (key@, all[i as int].0, all[i as int].1),
                        ));
                    }
                },
                None => {},
            }
        }
        i = i + 1;
    }
    proof {
        assert(all.take(all.len() as int) =~= all);
    }
    out
}

/// The files of the buckets that a flush drops: those with entries that are no
/// transcript under the projects directory.
pub open spec fn dropped_from(
    buckets: Seq<Bucket>,
    projects_dir: Seq<char>,
    windows: bool,
) -> Seq<Seq<char>>
    decreases buckets.len(),
{
    if buckets.len() == 0 {
        Seq::empty()
    } else {
        let before = dropped_from(buckets.drop_last(), projects_dir, windows);
        let b = buckets.last();
        if b.1.len() > 0 && file_key_on(b.0, projects_dir, windows) is None {
            before.push(b.0)
        } else {
            before
        }
    }
}

/// The files whose entries a flush drops, in the order in which they were
/// first seen.
pub fn dropped_files(items: &Vec<MirrorEntry>, projects_dir: &str, windows: bool) -> (r: Vec<
    String,
>)
    ensures
        text_views(r@) == dropped_from(coalesced(frames_of(items@)), projects_dir@, windows),
{
    let buckets = coalesce(items);
    let ghost all = frames_of(buckets@);
    let mut out: Vec<String> = Vec::new();
    let mut i: usize = 0;
    proof {
        assert(text_views(out@) =~= dropped_from(all.take(0), projects_dir@, windows));
    }
    while i < buckets.len()
        invariant
            all == frames_of(buckets@),
            i <= buckets@.len(),
            text_views(out@) == dropped_from(all.take(i as int), projects_dir@, windows),
        decreases buckets@.len() - i,
    {
        let ghost were = out@;
        proof {
            assert(all.take(i as int + 1).drop_last() =~= all.take(i as int));
            assert(all.take(i as int + 1).last() == all[i as int]);
        }
        if buckets[i].entries.len() > 0 && file_path_to_session_key_on(
            &buckets[i].file_path,
            projects_dir,
            windows,
        ).is_none() {
            out.push(buckets[i].file_path.clone());
            proof {
                assert(text_views(out@) =~= text_views(were).push(all[i as int].0));
            }
        }
        i = i + 1;
    }
    proof {
        assert(all.take(all.len() as int) =~= all);
    }
    out
}

/// Every bucket with entries is either appended or told of as dropped.
pub proof fn law_flushed_or_dropped(
    buckets: Seq<Bucket>,
    projects_dir: Seq<char>,
    windows: bool,
    i: int,
)
    requires
        0 <= i < buckets.len(),
        buckets[i].1.len() > 0,
    ensures
        match file_key_on(buckets[i].0, projects_dir, windows) {
            Some(key) => appends_for(buckets, projects_dir, windows).contains(
                (key, buckets[i].0, buckets[i].1),
            ),
            None => dropped_from(buckets, projects_dir, windows).contains(buckets[i].0),
        },
    decreases buckets.len(),
{
    let appends = appends_for(buckets, projects_dir, windows);
    let dropped = dropped_from(buckets, projects_dir, windows);
    let init = buckets.drop_last();
    if i == buckets.len() - 1 {
        match file_key_on(buckets[i].0, projects_dir, windows) {
            Some(key) => {
                assert(appends[appends.len() - 1] == (key, buckets[i].0, buckets[i].1));
            },
            None => {
                assert(dropped[dropped.len() - 1] == buckets[i].0);
            },
        }
    } else {
        law_flushed_or_dropped(init, projects_dir, windows, i);
        assert(init[i] == buckets[i]);
        match file_key_on(buckets[i].0, projects_dir, windows) {
            Some(key) => {
                let before = appends_for(init, projects_dir, windows);
                let x = (key, buckets[i].0, buckets[i].1);
                let k = choose|k: int| 0 <= k < before.len() && before[k] == x;
                assert(appends[k] == x);
            },
            None => {
                let before = dropped_from(init, projects_dir, windows);
                let k = choose|k: int| 0 <= k < before.len() && before[k] == buckets[i].0;
                assert(dropped[k] == buckets[i].0);
            },
        }
    }
}

/// A flush never appends an empty list.
pub proof fn law_no_empty_appends(buckets: Seq<Bucket>, projects_dir: Seq<char>, windows: bool)
    ensures
        forall|i: int|
            0 <= i < appends_for(buckets, projects_dir, windows).len() ==> (#[trigger] appends_for(
                buckets,
                projects_dir,
                windows,
            )[i]).2.len() > 0,
    decreases buckets.len(),
{
    if buckets.len() > 0 {
        law_no_empty_appends(buckets.drop_last(), projects_dir, windows);
        let before = appends_for(buckets.drop_last(), projects_dir, windows);
        let all = appends_for(buckets, projects_dir, windows);
        assert forall|i: int| 0 <= i < all.len() implies (#[trigger] all[i]).2.len() > 0 by {
            if i < before.len() {
                assert(all[i] == before[i]);
            }
        }
    }
}

// ---------------------------------------------------------------------------
// Retries
// ---------------------------------------------------------------------------

/// How an append ended.
#[derive(Debug)]
pub enum AppendOutcome {
    /// The store took the entries.
    Done,
    /// The store failed, and says why.
    Failed(String),
    /// The store did not answer in time. The text gives the seconds.
    TimedOut(String),
}

/// What follows an append.
#[derive(Debug)]
pub enum AppendStep {
    /// Nothing: the entries are stored.
    Finished,
    /// Another append, after this many milliseconds.
    RetryAfter(u64),
    /// The entries are dropped, and this is reported.
    GiveUp(String),
}

/// The contents of an [`AppendOutcome`].
pub ghost enum Ended {
    Done,
    Failed(Seq<char>),
    TimedOut(Seq<char>),
}

/// The contents of an [`AppendStep`].
pub ghost enum Next {
    Finished,
    RetryAfter(u64),
    GiveUp(Seq<char>),
}

impl View for AppendOutcome {
    type V = Ended;

    open spec fn view(&self) -> Ended {
        match self {
            AppendOutcome::Done => Ended::Done,
            AppendOutcome::Failed(e) => Ended::Failed(e@),
            AppendOutcome::TimedOut(s) => Ended::TimedOut(s@),
        }
    }
}

impl View for AppendStep {
    type V = Next;

    open spec fn view(&self) -> Next {
        match self {
            AppendStep::Finished => Next::Finished,
            AppendStep::RetryAfter(ms) => Next::RetryAfter(*ms),
            AppendStep::GiveUp(e) => Next::GiveUp(e@),
        }
    }
}

/// The wait after the first failed append, and after the second.
pub open spec fn backoff_ms(attempts: int) -> u64 {
    if attempts <= 1 {
        200
    } else {
        800
    }
}

/// What follows the last of `attempts` appends.
pub open spec fn next_step(attempts: int, outcome: Ended) -> Next {
    match outcome {
        Ended::Done => Next::Finished,
        Ended::Failed(e) => if attempts < MIRROR_APPEND_MAX_ATTEMPTS {
            Next::RetryAfter(backoff_ms(attempts))
        } else {
            Next::GiveUp(e)
        },
        Ended::TimedOut(s) => Next::GiveUp("SessionStore::append timed out after "@ + s + "s"@),
    }
}

/// What follows the last of `attempts` appends of one batch.
pub fn after_append(attempts: usize, outcome: AppendOutcome) -> (r: AppendStep)
    ensures
        r@ == next_step(attempts as int, outcome@),
{
    match outcome {
        AppendOutcome::Done => AppendStep::Finished,
        AppendOutcome::Failed(e) => {
            if attempts < MIRROR_APPEND_MAX_ATTEMPTS {
                AppendStep::RetryAfter(
                    if attempts <= 1 {
                        200
                    } else {
                        800
                    },
                )
            } else {
                AppendStep::GiveUp(e)
            }
        },
        AppendOutcome::TimedOut(s) => AppendStep::GiveUp(
            concat3("SessionStore::append timed out after ", &s, "s"),
        ),
    }
}

/// How many appends a batch takes, where the `n`th one ends in `outcomes(n)`,
/// and what comes of it. `made` appends were made before.
pub open spec fn appends_made(outcomes: spec_fn(int) -> Ended, made: int) -> (int, Next)
    decreases MIRROR_APPEND_MAX_ATTEMPTS - made,
{
    let step = next_step(made + 1, outcomes(made + 1));
    if step is RetryAfter && made < MIRROR_APPEND_MAX_ATTEMPTS {
        appends_made(outcomes, made + 1)
    } else {
        (made + 1, step)
    }
}

/// A batch takes no more than [`MIRROR_APPEND_MAX_ATTEMPTS`] appends. All but
/// the last of them failed. The batch is stored if the last one was done; it
/// is dropped if the last one timed out, or failed as the last that was
/// allowed.
pub proof fn law_appends_are_bounded(outcomes: spec_fn(int) -> Ended)
    ensures
        ({
            let (n, end) = appends_made(outcomes, 0);
            &&& 1 <= n <= MIRROR_APPEND_MAX_ATTEMPTS
            &&& forall|k: int| 1 <= k < n ==> #[trigger] outcomes(k) is Failed
            &&& end is Finished <==> outcomes(n) is Done
            &&& end is GiveUp <==> outcomes(n) is TimedOut || (outcomes(n) is Failed && n
                == MIRROR_APPEND_MAX_ATTEMPTS)
        }),
{
    reveal_with_fuel(appends_made, 4);
}

/// Frames are flushed one by one, in order: the entries of a file with a key
/// go to its key as they are, those of a file without one are dropped, and a
/// file without entries is neither appended nor dropped.
pub proof fn law_flushes_are_in_order(
    a: Seq<Bucket>,
    b: Seq<Bucket>,
    bucket: Bucket,
    projects_dir: Seq<char>,
    windows: bool,
)
    ensures
        appends_for(a + b, projects_dir, windows) == appends_for(a, projects_dir, windows)
            + appends_for(b, projects_dir, windows),
        dropped_from(a + b, projects_dir, windows) == dropped_from(a, projects_dir, windows)
            + dropped_from(b, projects_dir, windows),
        ({
            let one = seq![bucket];
            let key = file_key_on(bucket.0, projects_dir, windows);
            &&& bucket.1.len() == 0 ==> appends_for(one, projects_dir, windows).len() == 0
                && dropped_from(one, projects_dir, windows).len() == 0
            &&& bucket.1.len() > 0 && key is Some ==> appends_for(one, projects_dir, windows)
                == seq![(key->0, bucket.0, bucket.1)] && dropped_from(
                one,
                projects_dir,
                windows,
            ).len() == 0
            &&& bucket.1.len() > 0 && key is None ==> appends_for(
                one,
                projects_dir,
                windows,
            ).len() == 0 && dropped_from(one, projects_dir, windows) == seq![bucket.0]
        }),
    decreases b.len(),
{
    let one = seq![bucket];
    assert(one.drop_last() =~= Seq::<Bucket>::empty());
    assert(one.last() == bucket);
    let none = appends_for(one.drop_last(), projects_dir, windows);
    assert(none =~= Seq::empty());
    if let Some(key) = file_key_on(bucket.0, projects_dir, windows) {
        assert(none.push((key, bucket.0, bucket.1)) =~= seq![(key, bucket.0, bucket.1)]);
    }
    let lost = dropped_from(one.drop_last(), projects_dir, windows);
    assert(lost =~= Seq::empty());
    assert(lost.push(bucket.0) =~= seq![bucket.0]);
    if b.len() > 0 {
        law_flushes_are_in_order(a, b.drop_last(), bucket, projects_dir, windows);
        assert((a + b).drop_last() =~= a + b.drop_last());
        assert((a + b).last() == b.last());
        assert(appends_for(a + b, projects_dir, windows) =~= appends_for(a, projects_dir, windows)
            + appends_for(b, projects_dir, windows));
        assert(dropped_from(a + b, projects_dir, windows) =~= dropped_from(
            a,
            projects_dir,
            windows,
        ) + dropped_from(b, projects_dir, windows));
    } else {
        assert(a + b =~= a);
        assert(appends_for(a, projects_dir, windows) + appends_for(b, projects_dir, windows)
            =~= appends_for(a, projects_dir, windows));
        assert(dropped_from(a, projects_dir, windows) + dropped_from(b, projects_dir, windows)
            =~= dropped_from(a, projects_dir, windows));
    }
}

/// An append that failed is tried again 200 ms after the first time and 800 ms
/// after the second. The third failure is the last, and tells its error. An
/// append that ran out of time is not tried again.
pub proof fn law_retries(e: Seq<char>)
    ensures
        next_step(1, Ended::Failed(e)) == Next::RetryAfter(200),
        next_step(2, Ended::Failed(e)) == Next::RetryAfter(800),
        next_step(3, Ended::Failed(e)) == Next::GiveUp(e),
        forall|attempts: int| #[trigger] next_step(attempts, Ended::Done) == Next::Finished,
        forall|attempts: int| #[trigger]
            next_step(attempts, Ended::TimedOut(e)) == Next::GiveUp(
                "SessionStore::append timed out after "@ + e + "s"@,
            ),
{
}

/// Sizes add up. A text has two quotes; a list has brackets, and a comma and a
/// space between items; an object also has a colon and a space behind each
/// key. Characters outside ASCII count by their escapes.
pub proof fn law_sizes_add_up(
    s: Seq<char>,
    t: Seq<char>,
    c: char,
    items: Seq<Json>,
    m: Members,
    k: Seq<char>,
    j: Json,
    es: Seq<Members>,
    e: Members,
)
    ensures
        value_size(Json::Null) == 4,
        value_size(Json::Bool(true)) == 4,
        value_size(Json::Bool(false)) == 5,
        value_size(Json::Str(s + t)) + 2 == value_size(Json::Str(s)) + value_size(Json::Str(t)),
        value_size(Json::Str(Seq::empty())) == 2,
        ({
            let n = c as u32;
            let size = value_size(Json::Str(seq![c]));
            &&& c == '"' || c == '\\' || n == 8 || n == 9 || n == 10 || n == 12 || n == 13 ==> size
                == 4
            &&& n < 32 && !(n == 8 || n == 9 || n == 10 || n == 12 || n == 13) ==> size == 8
            &&& 32 <= n < 128 && c != '"' && c != '\\' ==> size == 3
            &&& 128 <= n < 65536 ==> size == 8
            &&& 65536 <= n ==> size == 14
        }),
        value_size(Json::Array(Seq::empty())) == 2,
        value_size(Json::Array(seq![j])) == 2 + value_size(j),
        items.len() > 0 ==> value_size(Json::Array(items.push(j))) == value_size(
            Json::Array(items),
        ) + 2 + value_size(j),
        value_size(Json::Object(Seq::empty())) == 2,
        value_size(Json::Object(seq![(k, j)])) == 2 + value_size(Json::Str(k)) + 2 + value_size(j),
        m.len() > 0 ==> value_size(Json::Object(m.push((k, j)))) == value_size(Json::Object(m)) + 2
            + value_size(Json::Str(k)) + 2 + value_size(j),
        list_size(Seq::empty()) == 2,
        list_size(seq![e]) == 2 + value_size(Json::Object(e)),
        es.len() > 0 ==> list_size(es.push(e)) == list_size(es) + 2 + value_size(Json::Object(e)),
{
    lemma_chars_join(s, t);
    assert(seq![c].drop_last() =~= Seq::<char>::empty());
    assert(seq![c].last() == c);
    reveal_with_fuel(chars_size, 2);
    reveal_with_fuel(items_size, 2);
    reveal_with_fuel(members_size, 2);
    reveal_with_fuel(entries_size, 2);
    let n = items.len() as int;
    lemma_items_kept(items, j, n);
    lemma_members_kept(m, (k, j), m.len() as int);
    lemma_entries_kept(es, e, es.len() as int);
    assert(items.push(j)[n] == j);
    assert(m.push((k, j))[m.len() as int] == (k, j));
    assert(es.push(e)[es.len() as int] == e);
    assert(value_size(Json::Array(items.push(j))) == 2 + items_size(items.push(j), n + 1));
    assert(value_size(Json::Object(m.push((k, j)))) == 2 + members_size(
        m.push((k, j)),
        (m.len() + 1) as int,
    ));
    assert(seq![j][0] == j);
    assert(value_size(Json::Array(seq![j])) == 2 + items_size(seq![j], 1));
    assert(seq![(k, j)][0] == (k, j));
    assert(value_size(Json::Object(seq![(k, j)])) == 2 + members_size(seq![(k, j)], 1));
    assert(seq![e][0] == e);
    assert(list_size(seq![e]) == 2 + entries_size(seq![e], 1));
}

/// Sizes of characters add up.
proof fn lemma_chars_join(s: Seq<char>, t: Seq<char>)
    ensures
        chars_size(s + t) == chars_size(s) + chars_size(t),
    decreases t.len(),
{
    if t.len() > 0 {
        lemma_chars_join(s, t.drop_last());
        assert((s + t).drop_last() =~= s + t.drop_last());
        assert((s + t).last() == t.last());
    } else {
        assert(s + t =~= s);
    }
}

/// One more item leaves the sizes of those before it.
proof fn lemma_items_kept(s: Seq<Json>, j: Json, n: int)
    requires
        n <= s.len(),
    ensures
        items_size(s.push(j), n) == items_size(s, n),
    decreases n,
{
    if n > 0 {
        lemma_items_kept(s, j, n - 1);
    }
}

/// One more member leaves the sizes of those before it.
proof fn lemma_members_kept(m: Members, p: (Seq<char>, Json), n: int)
    requires
        n <= m.len(),
    ensures
        members_size(m.push(p), n) == members_size(m, n),
    decreases n,
{
    if n > 0 {
        lemma_members_kept(m, p, n - 1);
    }
}

/// One more entry leaves the sizes of those before it.
proof fn lemma_entries_kept(es: Seq<Members>, e: Members, n: int)
    requires
        n <= es.len(),
    ensures
        entries_size(es.push(e), n) == entries_size(es, n),
    decreases n,
{
    if n > 0 {
        lemma_entries_kept(es, e, n - 1);
    }
}

/// What is pending counts all entries of all frames, and their sizes.
pub proof fn law_pending_adds_up(frames: Seq<Bucket>, frame: Bucket)
    ensures
        count_of(Seq::empty()) == 0,
        size_of_frames(Seq::empty()) == 0,
        count_of(frames.push(frame)) == count_of(frames) + frame.1.len(),
        size_of_frames(frames.push(frame)) == size_of_frames(frames) + list_size(frame.1),
{
    assert(frames.push(frame).drop_last() =~= frames);
}

} // verus!
