//! Imports of transcripts on disk into a store.
//!
//! The lines of a transcript go to the store in batches. Subagent transcripts
//! get the subpath under which they stand in the session's directory, and the
//! fields of their sidecar files as an entry of their own. A session gets the
//! project key that its file's directory is named by, which is the one that
//! mirrored transcripts get.
use serde_json::{Map as JsonMap, Value};
use vstd::prelude::*;

use crate::error::ClaudeError;
use crate::json::{
    json, member_lists, members, pairs, parsed, put, read_value, string_value, Json, Members,
};
use crate::sessions::jsonl::{are_objects, objects_on};
use crate::sessions::key::{join_without_ending, without_ending};
use crate::sessions::mirror::{MAX_PENDING_BYTES, MAX_PENDING_ENTRIES};
use crate::sessions::path::{
    below, file_name, file_name_of, is_file_name, part_views, strip_root, with_file_name, with_name, Part,
    PathPart,
};
use crate::sessions::store::SessionStoreEntry;
use crate::text::{
    before_suffix, concat, concat3, joined, strip_suffix, text_view, text_views, trim, trimmed,
};

verus! {

broadcast use vstd::string::group_string_axioms;

// ---------------------------------------------------------------------------
// Batches
// ---------------------------------------------------------------------------

/// The entries of a transcript file that wait for the next append.
#[derive(Debug)]
pub struct ImportBatch {
    size: usize,
    entries: Vec<SessionStoreEntry>,
    bytes: usize,
}

/// The contents of an [`ImportBatch`].
pub ghost struct Batch {
    /// How many entries make an append.
    pub size: nat,
    /// The entries that wait.
    pub entries: Seq<Members>,
    /// The bytes of their lines.
    pub bytes: nat,
}

impl View for ImportBatch {
    type V = Batch;

    closed spec fn view(&self) -> Batch {
        Batch {
            size: self.size as nat,
            entries: member_lists(self.entries@),
            bytes: self.bytes as nat,
        }
    }
}

/// A batch that waits is not full.
pub open spec fn is_waiting(b: Batch) -> bool {
    b.size > 0 && b.entries.len() < b.size && b.bytes < MAX_PENDING_BYTES
}

/// What a line does to a batch.
pub ghost enum Fed {
    /// The line is no JSON text.
    Malformed,
    /// The line is a JSON text, but no object.
    NoObject(Json),
    /// The batch waits for more.
    Held(Batch),
    /// The entries are to be appended; the next batch is empty.
    Full(Seq<Members>, Batch),
}

/// A batch with one more entry, whose line has this many bytes.
pub open spec fn fed_entry(b: Batch, m: Members, bytes: nat) -> Fed {
    let entries = b.entries.push(m);
    if entries.len() >= b.size || b.bytes + bytes >= MAX_PENDING_BYTES {
        Fed::Full(entries, Batch { size: b.size, entries: Seq::empty(), bytes: 0 })
    } else {
        Fed::Held(Batch { size: b.size, entries, bytes: b.bytes + bytes })
    }
}

/// What a line does to a batch. Blank lines are passed over.
pub open spec fn fed(b: Batch, line: Seq<char>) -> Fed {
    if trimmed(line).len() == 0 {
        Fed::Held(b)
    } else {
        match parsed(line) {
            Some(Json::Object(m)) => fed_entry(b, m, vstd::utf8::encode_utf8(line).len()),
            Some(j) => Fed::NoObject(j),
            None => Fed::Malformed,
        }
    }
}

impl ImportBatch {
    #[verifier::type_invariant]
    spec fn is_not_full(self) -> bool {
        is_waiting(self@)
    }

    /// An empty batch. A size of zero stands for [`MAX_PENDING_ENTRIES`].
    pub fn new(batch_size: usize) -> (r: Self)
        ensures
            r@ == (Batch {
                size: if batch_size == 0 {
                    MAX_PENDING_ENTRIES as nat
                } else {
                    batch_size as nat
                },
                entries: Seq::empty(),
                bytes: 0,
            }),
    {
        let size: usize = if batch_size == 0 {
            MAX_PENDING_ENTRIES
        } else {
            batch_size
        };
        let entries: Vec<SessionStoreEntry> = Vec::new();
        proof {
            assert(member_lists(entries@) =~= Seq::<Members>::empty());
        }
        ImportBatch { size, entries, bytes: 0 }
    }

    /// Feeds a line. Gives the entries to append, once the batch is full.
    pub fn push_line(&mut self, line: &str) -> (r: Result<
        Option<Vec<SessionStoreEntry>>,
        ClaudeError,
    >)
        ensures
            match fed(old(self)@, line@) {
                Fed::Malformed => r matches Err(e) && e is SerializationError && final(self)@
                    == old(self)@,
                Fed::NoObject(j) => r matches Err(ClaudeError::MessageParse { message, data })
                    && message@ == "session transcript line is not a JSON object"@ && data is Some
                    && json(data->0) == j && final(self)@ == old(self)@,
                Fed::Held(b) => r matches Ok(None) && final(self)@ == b,
                Fed::Full(entries, b) => r matches Ok(Some(list)) && member_lists(list@) == entries
                    && final(self)@ == b,
            },
    {
        if trim(line).as_str().is_empty() {
            return Ok(None);
        }
        let value = match read_value(line) {
            Ok(v) => v,
            Err(e) => return Err(ClaudeError::SerializationError(e)),
        };
        let entry = match value.as_object() {
            Some(m) => m.clone(),
            None => return Err(
                ClaudeError::MessageParse {
                    message: "session transcript line is not a JSON object".to_owned(),
                    data: Some(value),
                },
            ),
        };
        proof {
            use_type_invariant(&*self);
        }
        let length: usize = line.as_bytes().len();
        let size: usize = self.size;
        let mut batch = ImportBatch::new(size);
        std::mem::swap(self, &mut batch);
        proof {
            use_type_invariant(&batch);
        }
        let ghost before = batch.entries@;
        let bytes: usize = batch.bytes;
        let mut entries = batch.entries;
        entries.push(entry);
        proof {
            assert(member_lists(entries@) =~= member_lists(before).push(members(entry)));
        }
        if entries.len() >= size || length >= MAX_PENDING_BYTES - bytes {
            return Ok(Some(entries));
        }
        *self = ImportBatch { size, entries, bytes: bytes + length };
        Ok(None)
    }

    /// Gives the entries that still wait, where there are any.
    pub fn finish(self) -> (r: Option<Vec<SessionStoreEntry>>)
        ensures
            match r {
                Some(list) => list@.len() > 0 && member_lists(list@) == self@.entries,
                None => self@.entries.len() == 0,
            },
    {
        if self.entries.len() == 0 {
            None
        } else {
            Some(self.entries)
        }
    }
}

/// The appends for lines, with what waits after them; nothing where a line is
/// not a JSON object.
pub open spec fn fed_all(b: Batch, lines: Seq<Seq<char>>) -> Option<(Seq<Seq<Members>>, Batch)>
    decreases lines.len(),
{
    if lines.len() == 0 {
        Some((Seq::empty(), b))
    } else {
        match fed_all(b, lines.drop_last()) {
            Some((appends, c)) => match fed(c, lines.last()) {
                Fed::Held(d) => Some((appends, d)),
                Fed::Full(entries, d) => Some((appends.push(entries), d)),
                _ => None,
            },
            None => None,
        }
    }
}

/// Batches one after the other.
pub open spec fn flattened(batches: Seq<Seq<Members>>) -> Seq<Members>
    decreases batches.len(),
{
    if batches.len() == 0 {
        Seq::empty()
    } else {
        flattened(batches.drop_last()) + batches.last()
    }
}

/// An import keeps all entries of a transcript in their order, and no append
/// is empty or larger than a batch may be.
pub proof fn law_batches_keep_entries(size: nat, lines: Seq<Seq<char>>)
    requires
        size > 0,
    ensures
        match fed_all(Batch { size, entries: Seq::empty(), bytes: 0 }, lines) {
            Some((appends, b)) => {
                &&& flattened(appends) + b.entries == objects_on(lines)
                &&& is_waiting(b) && b.size == size
                &&& are_objects(lines)
                &&& forall|i: int|
                    0 <= i < appends.len() ==> 0 < (#[trigger] appends[i]).len() <= size
            },
            None => !are_objects(lines),
        },
    decreases lines.len(),
{
    let start = Batch { size, entries: Seq::empty(), bytes: 0 };
    if lines.len() == 0 {
        assert(flattened(Seq::empty()) + start.entries =~= objects_on(lines));
    } else {
        let front = lines.drop_last();
        law_batches_keep_entries(size, front);
        let line = lines.last();
        match fed_all(start, front) {
            Some((appends, c)) => {
                assert forall|i: int| 0 <= i < front.len() implies #[trigger] lines[i]
                    == front[i] by {}
                match fed(c, line) {
                    Fed::Held(d) => {
                        assert(flattened(appends) + d.entries =~= objects_on(lines));
                    },
                    Fed::Full(entries, d) => {
                        let now = appends.push(entries);
                        assert(now.drop_last() =~= appends);
                        assert(flattened(now) + d.entries =~= objects_on(lines));
                        assert forall|i: int| 0 <= i < now.len() implies 0 < (
                        #[trigger] now[i]).len() <= size by {
                            if i < appends.len() {
                                assert(now[i] == appends[i]);
                            }
                        }
                    },
                    _ => {
                        assert(lines[lines.len() - 1] == line);
                        assert(!are_objects(lines));
                    },
                }
            },
            None => {
                let i = choose|i: int|
                    0 <= i < front.len() && trimmed(#[trigger] front[i]).len() > 0 && !(parsed(
                        front[i],
                    ) matches Some(Json::Object(_)));
                assert(lines[i] == front[i]);
                assert(!are_objects(lines));
            },
        }
    }
}

// ---------------------------------------------------------------------------
// Subagents
// ---------------------------------------------------------------------------

/// Members with the first `n` of others put over them.
pub open spec fn overlaid(m: Members, fields: Members, n: int) -> Members
    decreases n,
{
    if n <= 0 {
        m
    } else {
        put(overlaid(m, fields, n - 1), fields[n - 1].0, fields[n - 1].1)
    }
}

/// The entry that describes a subagent: the fields of its sidecar file, under
/// the type `agent_metadata` where they name none.
pub open spec fn metadata_entry(fields: Members) -> Members {
    overlaid(seq![("type"@, Json::Str("agent_metadata"@))], fields, fields.len() as int)
}

/// What a sidecar file that holds no object is answered.
pub open spec fn bad_sidecar_text(meta_path: Seq<char>) -> Seq<char> {
    "agent metadata sidecar "@ + meta_path + " is not a JSON object"@
}

/// The entry that describes a subagent, from the text of its sidecar file.
pub fn agent_metadata_entry(text: &str, meta_path: &str) -> (r: Result<
    SessionStoreEntry,
    ClaudeError,
>)
    ensures
        match parsed(text@) {
            Some(Json::Object(fields)) => r matches Ok(e) && members(e) == metadata_entry(fields),
            Some(j) => r matches Err(ClaudeError::MessageParse { message, data }) && message@
                == bad_sidecar_text(meta_path@) && data is Some && json(data->0) == j,
            None => r matches Err(e) && e is SerializationError,
        },
{
    let value = match read_value(text) {
        Ok(v) => v,
        Err(e) => return Err(ClaudeError::SerializationError(e)),
    };
    match value.as_object() {
        Some(m) => Ok(metadata_from_fields(m)),
        None => Err(
            ClaudeError::MessageParse {
                message: concat3("agent metadata sidecar ", meta_path, " is not a JSON object"),
                data: Some(value),
            },
        ),
    }
}

/// The entry that describes a subagent with these fields.
pub fn metadata_from_fields(fields: &JsonMap<String, Value>) -> (r: SessionStoreEntry)
    ensures
        members(r) == metadata_entry(members(*fields)),
{
    let ghost all = members(*fields);
    let ghost start: Members = seq![("type"@, Json::Str("agent_metadata"@))];
    let mut out: SessionStoreEntry = JsonMap::new();
    let _ = out.insert("type".to_owned(), string_value("agent_metadata".to_owned()));
    let list = pairs(fields);
    let mut i: usize = 0;
    proof {
        assert(members(out) =~= start);
    }
    while i < list.len()
        invariant
            all == members(*fields),
            list@.len() == all.len(),
            forall|j: int|
                0 <= j < list@.len() ==> (#[trigger] list@[j]).0@ == all[j].0 && json(*list@[j].1)
                    == all[j].1,
            i <= list@.len(),
            members(out) == overlaid(start, all, i as int),
        decreases list@.len() - i,
    {
        proof {
            assert(list@[i as int].0@ == all[i as int].0);
        }
        let _ = out.insert(list[i].0.clone(), list[i].1.clone());
        i = i + 1;
    }
    out
}

/// A part of a path as a text.
pub open spec fn part_text(part: Part) -> Seq<char> {
    match part {
        Part::Root => "/"@,
        Part::Current => "."@,
        Part::Parent => ".."@,
        Part::Name(n) => n,
    }
}

/// The parts of a path as texts.
pub open spec fn part_texts(parts: Seq<Part>) -> Seq<Seq<char>> {
    Seq::new(parts.len(), |i: int| part_text(parts[i]))
}

/// The subpath of a transcript in a session's directory: its parts below the
/// directory, parted by `/`, without the ending of the file name.
pub open spec fn subpath_in(session_dir: Seq<char>, file_path: Seq<char>) -> Option<Seq<char>> {
    match below(file_path, session_dir) {
        Some(parts) => if parts.len() > 0 {
            Some(joined(without_ending(part_texts(parts)), seq!['/']))
        } else {
            None
        },
        None => None,
    }
}

/// The subpath of a transcript in a session's directory.
pub fn relative_subpath(session_dir: &str, file_path: &str) -> (r: Option<String>)
    ensures
        text_view(r) == subpath_in(session_dir@, file_path@),
{
    let parts = match strip_root(file_path, session_dir) {
        Some(p) => p,
        None => return None,
    };
    if parts.len() == 0 {
        return None;
    }
    let mut texts: Vec<String> = Vec::new();
    let mut i: usize = 0;
    while i < parts.len()
        invariant
            i <= parts@.len(),
            texts@.len() == i,
            forall|j: int| 0 <= j < i ==> (#[trigger] texts@[j])@ == part_text(parts@[j]@),
        decreases parts@.len() - i,
    {
        let text = match &parts[i] {
            PathPart::Root => "/".to_owned(),
            PathPart::Current => ".".to_owned(),
            PathPart::Parent => "..".to_owned(),
            PathPart::Name(n) => n.clone(),
        };
        texts.push(text);
        i = i + 1;
    }
    proof {
        assert(text_views(texts@) =~= part_texts(part_views(parts@)));
    }
    Some(join_without_ending(texts))
}

/// The sidecar file of a transcript: `<name>.meta.json` for `<name>.jsonl`.
pub open spec fn sidecar_of(file_path: Seq<char>) -> Seq<char> {
    let name = match file_name_of(file_path) {
        Some(n) => n,
        None => Seq::empty(),
    };
    let base = match before_suffix(name, ".jsonl"@) {
        Some(b) => b,
        None => name,
    };
    with_name(file_path, base + ".meta.json"@)
}

/// The sidecar file of a transcript.
pub fn meta_sidecar_path(file_path: &str) -> (r: String)
    ensures
        r@ == sidecar_of(file_path@),
{
    match file_name(file_path) {
        Some(name) => {
            let file = match strip_suffix(&name, ".jsonl") {
                Some(base) => concat(&base, ".meta.json"),
                None => concat(&name, ".meta.json"),
            };
            with_file_name(file_path, &file)
        },
        None => {
            proof {
                lemma_no_stem();
                assert(Seq::<char>::empty() + ".meta.json"@ =~= ".meta.json"@);
            }
            with_file_name(file_path, ".meta.json")
        },
    }
}

/// An empty name has no ending to lose.
proof fn lemma_no_stem()
    ensures
        before_suffix(Seq::<char>::empty(), ".jsonl"@) is None,
{
    reveal_strlit(".jsonl");
}

// ---------------------------------------------------------------------------
// Keys
// ---------------------------------------------------------------------------

/// The name of the directory that a file stands in.
pub open spec fn directory_name(file_path: Seq<char>) -> Option<Seq<char>> {
    let parts = crate::sessions::path::path_parts(file_path);
    if parts.len() >= 2 {
        match parts[parts.len() - 2] {
            Part::Name(n) => Some(n),
            _ => None,
        }
    } else {
        None
    }
}

/// What an import is answered whose file stands in no project directory.
pub open spec fn no_project_text(session_id: Seq<char>) -> Seq<char> {
    "Session "@ + session_id + " resolved to a path with no project directory"@
}

/// The project key of a transcript file: the name of its directory, wherever
/// the directory was found.
pub fn import_project_key(session_id: &str, file_path: &str) -> (r: Result<String, ClaudeError>)
    ensures
        match directory_name(file_path@) {
            Some(n) => r matches Ok(key) && key@ == n,
            None => r matches Err(e) && e.is_transport_error(no_project_text(session_id@)),
        },
{
    let parts = crate::sessions::path::components(file_path);
    if parts.len() >= 2 {
        proof {
            assert(part_views(parts@)[parts@.len() - 2] == parts@[parts@.len() - 2]@);
        }
        match &parts[parts.len() - 2] {
            PathPart::Name(n) => return Ok(n.clone()),
            _ => {},
        }
    }
    Err(
        ClaudeError::TransportError(
            concat3("Session ", session_id, " resolved to a path with no project directory"),
        ),
    )
}

/// An imported transcript gets the key of a mirrored one: the project key and
/// the subpath are those that the file's path gives.
pub proof fn law_import_keys_are_mirror_keys(
    projects_dir: Seq<char>,
    project_key: Seq<char>,
    session_id: Seq<char>,
)
    requires
        projects_dir.len() > 0,
        is_file_name(project_key),
        !session_id.contains('/'),
    ensures
        ({
            let file = projects_dir + seq!['/'] + project_key + seq!['/'] + (session_id
                + ".jsonl"@);
            &&& directory_name(file) == Some(project_key)
            &&& crate::sessions::key::file_key(file, projects_dir) == Some(
                crate::sessions::key::Key { project_key, session_id, subpath: None },
            )
        }),
{
    let name = session_id + ".jsonl"@;
    let dir = projects_dir + seq!['/'] + project_key;
    crate::sessions::key::law_main_transcript_key(projects_dir, project_key, session_id);
    crate::sessions::key::law_file_in_directory(projects_dir, project_key);
    reveal_strlit(".jsonl");
    assert(name.len() >= 6);
    assert(!name.contains('/')) by {
        if name.contains('/') {
            let i = choose|i: int| 0 <= i < name.len() && name[i] == '/';
            if i < session_id.len() {
                assert(session_id[i] == '/');
            } else {
                assert(name[i] == ".jsonl"@[i - session_id.len()]);
            }
        }
    }
    crate::sessions::key::law_file_in_directory(dir, name);
    assert(projects_dir + seq!['/'] + project_key + seq!['/'] + name =~= dir + seq!['/'] + name);
    let parts = crate::sessions::path::path_parts(dir + seq!['/'] + name);
    assert(parts[parts.len() - 2] == Part::Name(project_key));
}

/// The same for a subagent's transcript in the session's directory.
#[verifier::spinoff_prover]
pub proof fn law_import_subpaths_are_mirror_subpaths(
    projects_dir: Seq<char>,
    session_dir: Seq<char>,
    project_key: Seq<char>,
    session_id: Seq<char>,
    file_path: Seq<char>,
)
    requires
        crate::sessions::path::path_parts(session_dir) == crate::sessions::path::path_parts(
            projects_dir,
        ) + seq![Part::Name(project_key), Part::Name(session_id)],
        crate::sessions::path::is_under(file_path, session_dir),
        crate::sessions::key::file_key(file_path, projects_dir) matches Some(k) && k.subpath is Some,
    ensures
        crate::sessions::key::file_key(file_path, projects_dir) == Some(
            crate::sessions::key::Key {
                project_key,
                session_id,
                subpath: subpath_in(session_dir, file_path),
            },
        ),
{
    let all = crate::sessions::path::path_parts(file_path);
    let root = crate::sessions::path::path_parts(projects_dir);
    let dir = crate::sessions::path::path_parts(session_dir);
    assert(dir[root.len() as int] == Part::Name(project_key));
    assert(dir[root.len() as int + 1] == Part::Name(session_id));
    assert(all[root.len() as int] == dir[root.len() as int]);
    assert(all[root.len() as int + 1] == dir[root.len() as int + 1]);
    let parts = below(file_path, projects_dir)->0;
    let names = crate::sessions::key::part_names(parts)->0;
    assert(parts[0] == Part::Name(project_key));
    assert(parts[1] == Part::Name(session_id));
    let rest = below(file_path, session_dir)->0;
    assert(rest =~= parts.skip(2));
    assert(part_texts(rest) =~= names.skip(2)) by {
        assert forall|i: int| 0 <= i < rest.len() implies #[trigger] part_texts(rest)[i]
            == names.skip(2)[i] by {
            assert(rest[i] == parts[i + 2]);
            assert(parts[i + 2] is Name);
        }
    }
}

/// A batch is handed out when it holds as many entries as it may, or when its
/// lines reach a mebibyte, and not before. It then begins anew.
pub proof fn law_batches_are_cut(b: Batch, line: Seq<char>, m: Members)
    requires
        trimmed(line).len() > 0,
        parsed(line) == Some(Json::Object(m)),
    ensures
        ({
            let bytes = b.bytes + vstd::utf8::encode_utf8(line).len();
            if b.entries.len() + 1 < b.size && bytes < 1048576 {
                fed(b, line) matches Fed::Held(now) && now.entries == b.entries.push(m)
                    && now.bytes == bytes && now.size == b.size
            } else {
                fed(b, line) matches Fed::Full(entries, now) && entries == b.entries.push(m)
                    && now.entries.len() == 0 && now.bytes == 0 && now.size == b.size
            }
        }),
{
}

/// A blank line adds nothing to a batch. A line that is no JSON text, or no
/// object, stops the import.
pub proof fn law_other_lines_of_an_import(b: Batch, line: Seq<char>)
    ensures
        trimmed(line).len() == 0 ==> fed(b, line) == Fed::Held(b),
        trimmed(line).len() > 0 && parsed(line) is None ==> fed(b, line) == Fed::Malformed,
        match parsed(line) {
            Some(Json::Object(_)) => true,
            Some(j) => trimmed(line).len() > 0 ==> fed(b, line) == Fed::NoObject(j),
            None => true,
        },
{
}

/// The sidecar of a transcript stands beside it, with `.meta.json` in the place
/// of `.jsonl`.
pub proof fn law_sidecars_stand_beside(dir: Seq<char>, base: Seq<char>)
    requires
        dir.len() > 0,
        dir.last() != '/' && dir.last() != '.',
        !base.contains('/'),
    ensures
        sidecar_of(dir + seq!['/'] + (base + ".jsonl"@)) == dir + seq!['/'] + (base
            + ".meta.json"@),
{
    let end = ".jsonl"@;
    let name = base + end;
    let other = base + ".meta.json"@;
    reveal_strlit(".jsonl");
    reveal_strlit(".meta.json");
    assert(!name.contains('/')) by {
        if name.contains('/') {
            let i = choose|i: int| 0 <= i < name.len() && name[i] == '/';
            if i < base.len() {
                assert(base[i] == '/');
            } else {
                assert(end[i - base.len()] == '/');
            }
        }
    }
    assert(name.len() >= 6);
    if base.len() > 0 {
        assert(other[0] == base[0]);
    }
    crate::sessions::path::law_names_in_directories(dir, name, other);
    assert(end.is_suffix_of(name)) by {
        assert(name.subrange(name.len() - end.len(), name.len() as int) =~= end);
    }
    assert(name.take(name.len() - end.len()) =~= base);
}

} // verus!
