//! Session identity: project keys, session keys, and the keys of transcript
//! files.
//!
//! A project key is the name of a project's directory on disk: the absolute
//! path of the project in Unicode normal form C, with every character but
//! letters and digits replaced. So the keys of transcripts on disk and of
//! transcripts in a store are the same.
use vstd::prelude::*;

use crate::error::ClaudeError;
use crate::sessions::path::{
    below, is_absolute, is_absolute_path, is_file_name, lexical_realpath, path_parts, piece_parts,
    real_path, resolved, strip_root, Part, PathPart,
};
use crate::text::{
    before_suffix, concat3, joined, push_text, split_on, strip_suffix, text_views, to_chars,
};
use crate::unicode::{nfc, nfc_text};

verus! {

broadcast use vstd::string::group_string_axioms;

/// Paths longer than this (after sanitization) are truncated and get a hash
/// as a suffix.
pub const MAX_SANITIZED_LENGTH: usize = 200;

// ---------------------------------------------------------------------------
// Keys
// ---------------------------------------------------------------------------

/// Identifies a session transcript (or subagent transcript) in a session
/// store.
///
/// Main transcripts have no `subpath`; subagent transcripts carry a `subpath`
/// like `"subagents/agent-{id}"`.
#[derive(Debug, PartialEq, Eq, Hash)]
pub struct SessionKey {
    /// Caller-defined scope. By default the sanitized working directory.
    pub project_key: String,
    /// The session identifier, exactly as the caller gave it.
    pub session_id: String,
    /// `None` for the main transcript.
    pub subpath: Option<String>,
}

/// The texts of a [`SessionKey`].
pub ghost struct Key {
    pub project_key: Seq<char>,
    pub session_id: Seq<char>,
    pub subpath: Option<Seq<char>>,
}

impl View for SessionKey {
    type V = Key;

    open spec fn view(&self) -> Key {
        Key {
            project_key: self.project_key@,
            session_id: self.session_id@,
            subpath: crate::text::text_view(self.subpath),
        }
    }
}

impl Clone for SessionKey {
    fn clone(&self) -> (r: Self)
        ensures
            r@ == self@,
    {
        SessionKey {
            project_key: self.project_key.clone(),
            session_id: self.session_id.clone(),
            subpath: match &self.subpath {
                Some(s) => Some(s.clone()),
                None => None,
            },
        }
    }
}

/// The text `"project_key/session_id[/subpath]"` of a key.
pub open spec fn storage_text(k: Key) -> Seq<char> {
    match k.subpath {
        Some(s) => k.project_key + seq!['/'] + k.session_id + seq!['/'] + s,
        None => k.project_key + seq!['/'] + k.session_id,
    }
}

impl SessionKey {
    /// Constructs a main-transcript key (no subpath).
    pub fn new(project_key: &str, session_id: &str) -> (r: Self)
        ensures
            r@ == (Key {
                project_key: project_key@,
                session_id: session_id@,
                subpath: None,
            }),
    {
        SessionKey {
            project_key: project_key.to_owned(),
            session_id: session_id.to_owned(),
            subpath: None,
        }
    }

    /// Constructs a subagent key after validating that the subpath is a safe
    /// relative path.
    pub fn with_subpath(project_key: &str, session_id: &str, subpath: &str) -> (r: Result<
        Self,
        ClaudeError,
    >)
        ensures
            match r {
                Ok(k) => subpath_fault(subpath@) is None && k@ == (Key {
                    project_key: project_key@,
                    session_id: session_id@,
                    subpath: Some(subpath@),
                }),
                Err(e) => subpath_fault(subpath@) is Some && e.is_invalid_config(
                    fault_text(subpath_fault(subpath@)->0, subpath@),
                ),
            },
    {
        match validate_subpath(subpath) {
            Ok(()) => Ok(
                SessionKey {
                    project_key: project_key.to_owned(),
                    session_id: session_id.to_owned(),
                    subpath: Some(subpath.to_owned()),
                },
            ),
            Err(e) => Err(e),
        }
    }

    /// Composite storage key: `"project_key/session_id[/subpath]"`.
    pub fn storage_key(&self) -> (r: String)
        ensures
            r@ == storage_text(self@),
    {
        let mut s = concat3(&self.project_key, "/", &self.session_id);
        proof {
            reveal_strlit("/");
            assert("/"@ =~= seq!['/']);
        }
        if let Some(subpath) = &self.subpath {
            push_text(&mut s, "/");
            push_text(&mut s, subpath);
        }
        s
    }
}

/// Names a session whose subkeys are listed.
#[derive(Debug, PartialEq, Eq, Hash, Clone)]
pub struct SessionListSubkeysKey {
    /// Caller-defined scope (see [`SessionKey::project_key`]).
    pub project_key: String,
    /// The session identifier (see [`SessionKey::session_id`]).
    pub session_id: String,
}

/// The text `"project_key/session_id/"`.
pub open spec fn prefix_text(project_key: Seq<char>, session_id: Seq<char>) -> Seq<char> {
    project_key + seq!['/'] + session_id + seq!['/']
}

impl SessionListSubkeysKey {
    /// Constructs a key for the listing of subkeys.
    pub fn new(project_key: &str, session_id: &str) -> (r: Self)
        ensures
            r.project_key@ == project_key@,
            r.session_id@ == session_id@,
    {
        SessionListSubkeysKey {
            project_key: project_key.to_owned(),
            session_id: session_id.to_owned(),
        }
    }

    /// Prefix (`"project_key/session_id/"`) under which subkeys are listed.
    pub fn prefix(&self) -> (r: String)
        ensures
            r@ == prefix_text(self.project_key@, self.session_id@),
    {
        let mut s = concat3(&self.project_key, "/", &self.session_id);
        proof {
            reveal_strlit("/");
            assert("/"@ =~= seq!['/']);
        }
        push_text(&mut s, "/");
        s
    }
}

/// The storage key of a subagent transcript is the prefix of its session with
/// the subpath behind it, and the storage key of a main transcript is below no
/// session's prefix unless an identifier holds a `/`.
pub proof fn law_subkeys_share_the_prefix(project_key: Seq<char>, session_id: Seq<char>, subpath: Seq<char>)
    ensures
        storage_text(Key { project_key, session_id, subpath: Some(subpath) }) == prefix_text(
            project_key,
            session_id,
        ) + subpath,
        !session_id.contains('/') ==> !prefix_text(project_key, session_id).is_prefix_of(
            storage_text(Key { project_key, session_id, subpath: None }),
        ),
{
    assert(storage_text(Key { project_key, session_id, subpath: Some(subpath) }) =~= prefix_text(
        project_key,
        session_id,
    ) + subpath);
}

/// Two keys with the same storage key are the same key, where neither project
/// keys nor session identifiers hold a `/`.
pub proof fn law_storage_key_is_unique(a: Key, b: Key)
    requires
        !a.project_key.contains('/') && !b.project_key.contains('/'),
        !a.session_id.contains('/') && !b.session_id.contains('/'),
        storage_text(a) == storage_text(b),
    ensures
        a == b,
{
    let s = storage_text(a);
    let ta = key_tail(a);
    let tb = key_tail(b);
    assert(s =~= a.project_key + seq!['/'] + ta);
    assert(s =~= b.project_key + seq!['/'] + tb);
    lemma_cut(a.project_key, ta, b.project_key, tb);
    assert(ta == tb);
    match (a.subpath, b.subpath) {
        (Some(x), Some(y)) => {
            assert(ta =~= a.session_id + seq!['/'] + x);
            assert(tb =~= b.session_id + seq!['/'] + y);
            lemma_cut(a.session_id, x, b.session_id, y);
        },
        (Some(x), None) => {
            assert(ta[a.session_id.len() as int] == '/');
            assert(b.session_id.contains('/'));
        },
        (None, Some(y)) => {
            assert(tb[b.session_id.len() as int] == '/');
            assert(a.session_id.contains('/'));
        },
        (None, None) => {},
    }
}

/// What stands behind the project key in a storage key.
spec fn key_tail(k: Key) -> Seq<char> {
    match k.subpath {
        Some(s) => k.session_id + seq!['/'] + s,
        None => k.session_id,
    }
}

/// A text has one cut at its first `/`.
proof fn lemma_cut(a: Seq<char>, x: Seq<char>, b: Seq<char>, y: Seq<char>)
    requires
        !a.contains('/'),
        !b.contains('/'),
        a + seq!['/'] + x == b + seq!['/'] + y,
    ensures
        a == b,
        x == y,
{
    let s = a + seq!['/'] + x;
    let t = b + seq!['/'] + y;
    assert(s[a.len() as int] == '/');
    assert(t[b.len() as int] == '/');
    if a.len() < b.len() {
        assert(b[a.len() as int] == t[a.len() as int]);
        assert(b.contains('/'));
    } else if b.len() < a.len() {
        assert(a[b.len() as int] == s[b.len() as int]);
        assert(a.contains('/'));
    }
    assert(a =~= s.take(a.len() as int));
    assert(b =~= t.take(b.len() as int));
    assert(x =~= s.skip(a.len() as int + 1));
    assert(y =~= t.skip(b.len() as int + 1));
}

// ---------------------------------------------------------------------------
// Subpaths
// ---------------------------------------------------------------------------

/// Why a text is not a safe relative storage-key suffix.
pub ghost enum SubpathFault {
    Empty,
    Nul,
    Absolute,
    Traverses,
}

/// What is wrong with a subpath, if anything is.
pub open spec fn subpath_fault(s: Seq<char>) -> Option<SubpathFault> {
    if s.len() == 0 {
        Some(SubpathFault::Empty)
    } else if s.contains('\0') {
        Some(SubpathFault::Nul)
    } else if is_absolute_path(s) {
        Some(SubpathFault::Absolute)
    } else if path_parts(s).contains(Part::Parent) {
        Some(SubpathFault::Traverses)
    } else {
        None
    }
}

/// The text that `format!("{:?}")` prints for a text: in quotes, and escaped.
pub uninterp spec fn debug_text(s: Seq<char>) -> Seq<char>;

/// `format!("{:?}")` of a text, as [`debug_text`] names it.
#[verifier::external_body]
fn debug_quoted(s: &str) -> (r: String)
    ensures
        r@ == debug_text(s@),
{
    format!("{:?}", s)
}

/// The text of the error for a fault of a subpath.
pub open spec fn fault_text(fault: SubpathFault, subpath: Seq<char>) -> Seq<char> {
    match fault {
        SubpathFault::Empty =>
            "session subpath must not be empty (omit it for the main transcript)"@,
        SubpathFault::Nul => "session subpath must not contain NUL"@,
        SubpathFault::Absolute => "session subpath must be relative, got "@ + debug_text(subpath),
        SubpathFault::Traverses => "session subpath must not traverse upward ('..'), got "@
            + debug_text(subpath),
    }
}

/// The error for a subpath that goes up, or that is not relative.
pub(crate) fn fault_error(traverses: bool, subpath: &str) -> (r: ClaudeError)
    ensures
        r.is_invalid_config(
            fault_text(
                if traverses {
                    SubpathFault::Traverses
                } else {
                    SubpathFault::Absolute
                },
                subpath@,
            ),
        ),
{
    let quoted = debug_quoted(subpath);
    ClaudeError::InvalidConfig(
        if traverses {
            crate::text::concat("session subpath must not traverse upward ('..'), got ", &quoted)
        } else {
            crate::text::concat("session subpath must be relative, got ", &quoted)
        },
    )
}

/// Whether a text holds a character.
pub fn has_char(s: &str, c: char) -> (r: bool)
    ensures
        r == s@.contains(c),
{
    let cs = to_chars(s);
    let mut i: usize = 0;
    while i < cs.len()
        invariant
            cs@ == s@,
            i <= s@.len(),
            forall|j: int| 0 <= j < i ==> s@[j] != c,
        decreases s@.len() - i,
    {
        if cs[i] == c {
            return true;
        }
        i = i + 1;
    }
    false
}

/// Validates that `subpath` is a safe relative storage-key suffix.
///
/// Rejects empty, absolute, NUL-containing, and `..`-traversing paths.
pub fn validate_subpath(subpath: &str) -> (r: Result<(), ClaudeError>)
    ensures
        match r {
            Ok(()) => subpath_fault(subpath@) is None,
            Err(e) => subpath_fault(subpath@) is Some && e.is_invalid_config(
                fault_text(subpath_fault(subpath@)->0, subpath@),
            ),
        },
{
    let cs = to_chars(subpath);
    if cs.len() == 0 {
        return Err(
            ClaudeError::InvalidConfig(
                "session subpath must not be empty (omit it for the main transcript)".to_owned(),
            ),
        );
    }
    if has_char(subpath, '\0') {
        return Err(
            ClaudeError::InvalidConfig("session subpath must not contain NUL".to_owned()),
        );
    }
    if is_absolute(subpath) {
        return Err(fault_error(false, subpath));
    }
    if crate::sessions::path::goes_up(subpath) {
        return Err(fault_error(true, subpath));
    }
    Ok(())
}

/// A valid subpath leads, from whatever directory it is resolved in, to that
/// directory or to a place below it.
pub proof fn law_valid_subpath_stays_inside(subpath: Seq<char>, from: Seq<Seq<char>>)
    requires
        subpath_fault(subpath) is None,
    ensures
        from.is_prefix_of(resolved(from, path_parts(subpath))),
{
    let parts = path_parts(subpath);
    let pieces = split_on(subpath, '/');
    assert forall|i: int| 0 <= i < parts.len() implies parts[i] != Part::Root by {
        lemma_no_root(pieces);
        assert(parts =~= piece_parts(pieces));
    }
    assert forall|i: int| 0 <= i < parts.len() implies parts[i] != Part::Parent by {
        assert(parts.contains(parts[i]));
    }
    lemma_stays_inside(from, parts);
}

/// No piece stands for the root directory.
proof fn lemma_no_root(pieces: Seq<Seq<char>>)
    ensures
        forall|i: int|
            0 <= i < piece_parts(pieces).len() ==> piece_parts(pieces)[i] != Part::Root,
    decreases pieces.len(),
{
    if pieces.len() > 0 {
        lemma_no_root(pieces.drop_last());
    }
}

/// Without `/` and `..` every step goes down.
proof fn lemma_stays_inside(from: Seq<Seq<char>>, parts: Seq<Part>)
    requires
        forall|i: int| 0 <= i < parts.len() ==> parts[i] != Part::Root,
        forall|i: int| 0 <= i < parts.len() ==> parts[i] != Part::Parent,
    ensures
        from.is_prefix_of(resolved(from, parts)),
    decreases parts.len(),
{
    if parts.len() > 0 {
        let before = parts.drop_last();
        assert(forall|i: int| 0 <= i < before.len() ==> before[i] == parts[i]);
        lemma_stays_inside(from, before);
        let at = resolved(from, before);
        let last = parts[parts.len() - 1];
        assert(parts.last() == last);
        assert(from =~= at.subrange(0, from.len() as int));
        match last {
            Part::Name(n) => {
                assert(at.push(n).subrange(0, from.len() as int) =~= from);
            },
            _ => {},
        }
    } else {
        assert(from.subrange(0, from.len() as int) =~= from);
    }
}

// ---------------------------------------------------------------------------
// Hash and sanitization
// ---------------------------------------------------------------------------

/// `x` as a 32-bit signed integer that wraps around.
pub open spec fn wrap32(x: int) -> int {
    let m = x % 0x1_0000_0000;
    if m >= 0x8000_0000 {
        m - 0x1_0000_0000
    } else {
        m
    }
}

/// The hash of a text: `hash * 31 + char` for each character, wrapped to a
/// 32-bit signed integer after each step.
pub open spec fn hash_value(s: Seq<char>) -> int
    decreases s.len(),
{
    if s.len() == 0 {
        0
    } else {
        wrap32(31 * hash_value(s.drop_last()) + s.last() as u32)
    }
}

/// The digit for `d` below 36: a decimal digit or a small letter.
pub open spec fn digit36(d: int) -> char {
    if d < 10 {
        (48 + d) as char
    } else {
        (87 + d) as char
    }
}

/// The value of a digit below 36.
pub open spec fn digit36_value(c: char) -> int {
    if c as u32 <= 57 {
        c as u32 - 48
    } else {
        c as u32 - 87
    }
}

/// `n` in base 36, without leading zeros.
pub open spec fn base36(n: nat) -> Seq<char>
    decreases n,
{
    if n < 36 {
        seq![digit36(n as int)]
    } else {
        base36(n / 36).push(digit36((n % 36) as int))
    }
}

/// The number that a text writes in base 36.
pub open spec fn base36_value(s: Seq<char>) -> int
    decreases s.len(),
{
    if s.len() == 0 {
        0
    } else {
        36 * base36_value(s.drop_last()) + digit36_value(s.last())
    }
}

/// The magnitude of the hash of a text, in base 36.
pub open spec fn hash_text(s: Seq<char>) -> Seq<char> {
    let h = hash_value(s);
    base36(
        if h < 0 {
            (-h) as nat
        } else {
            h as nat
        },
    )
}

/// What base 36 writes is read back as the same number.
pub proof fn law_base36_reads_back(n: nat)
    ensures
        base36_value(base36(n)) == n,
    decreases n,
{
    if n < 36 {
        reveal_with_fuel(base36_value, 2);
        assert(base36(n).drop_last() =~= Seq::<char>::empty());
    } else {
        law_base36_reads_back(n / 36);
        assert(base36(n).drop_last() =~= base36(n / 36));
    }
}

/// A hash is a 32-bit signed integer.
proof fn lemma_hash_range(s: Seq<char>)
    ensures
        -0x8000_0000 <= hash_value(s) <= 0x7fff_ffff,
{
}

/// A number below 36 to the sixth has at most six digits, each a decimal digit
/// or a small letter.
proof fn lemma_base36_shape(n: nat)
    ensures
        n < 2_176_782_336 ==> base36(n).len() <= 6,
        base36(n).len() >= 1,
        forall|i: int|
            0 <= i < base36(n).len() ==> is_word_char(#[trigger] base36(n)[i]) && base36(n)[i]
                != '-',
    decreases n,
{
    reveal_with_fuel(base36, 7);
    if n >= 36 {
        lemma_base36_shape(n / 36);
    }
}

/// The digit for `d` below 36.
fn digit36_char(d: u32) -> (r: char)
    requires
        d < 36,
    ensures
        r == digit36(d as int),
{
    if d < 10 {
        (48u8 + d as u8) as char
    } else {
        (87u8 + d as u8) as char
    }
}

/// 32-bit hash rendered in base 36, as it stands in the names of project
/// directories.
pub fn simple_hash(s: &str) -> (r: String)
    ensures
        r@ == hash_text(s@),
{
    let cs = to_chars(s);
    let mut h: i64 = 0;
    let mut i: usize = 0;
    proof {
        assert(s@.take(0) =~= Seq::<char>::empty());
    }
    while i < cs.len()
        invariant
            cs@ == s@,
            i <= s@.len(),
            h == hash_value(s@.take(i as int)),
            -0x8000_0000 <= h <= 0x7fff_ffff,
        decreases s@.len() - i,
    {
        proof {
            assert(s@.take(i as int + 1).drop_last() =~= s@.take(i as int));
        }
        let c: char = cs[i];
        let x: i64 = 31 * h + c as u32 as i64;
        // Above zero, so that the remainder is the one of a division rounded down.
        let y: i64 = x + 0x40_0000_0000;
        let m: i64 = y % 0x1_0000_0000;
        proof {
            assert(m == x as int % 0x1_0000_0000);
        }
        h = if m >= 0x8000_0000 {
            m - 0x1_0000_0000
        } else {
            m
        };
        i = i + 1;
    }
    proof {
        assert(s@.take(s@.len() as int) =~= s@);
    }
    let mut n: u64 = if h < 0 {
        (0 - h) as u64
    } else {
        h as u64
    };
    let ghost whole = n;
    let mut out: Vec<char> = Vec::new();
    let ghost mut tail: Seq<char> = Seq::empty();
    proof {
        assert(base36(whole as nat) =~= base36(n as nat) + tail);
    }
    while n >= 36
        invariant
            base36(whole as nat) == base36(n as nat) + tail,
            out@ == tail.reverse(),
        decreases n,
    {
        let c = digit36_char((n % 36) as u32);
        let ghost was = tail;
        proof {
            tail = seq![digit36((n % 36) as int)] + was;
            assert(base36(n as nat) + was =~= base36((n / 36) as nat) + tail);
            assert(was.reverse().push(c) =~= tail.reverse());
        }
        out.push(c);
        n = n / 36;
    }
    let c = digit36_char(n as u32);
    out.push(c);
    let mut r = String::new();
    let mut k: usize = out.len();
    let ghost all = base36(whole as nat);
    proof {
        assert(all =~= out@.reverse());
        assert(all.take(0) =~= Seq::<char>::empty());
    }
    while k > 0
        invariant
            k <= out@.len(),
            all == out@.reverse(),
            r@ == all.take(out@.len() - k),
        decreases k,
    {
        k = k - 1;
        proof {
            assert(all.take(out@.len() - k - 1).push(out@[k as int]) =~= all.take(out@.len() - k));
        }
        r.push(out[k]);
    }
    proof {
        assert(all.take(all.len() as int) =~= all);
    }
    r
}

/// Whether `c` is an ASCII letter or digit.
pub open spec fn is_alphanumeric(c: char) -> bool {
    let n = c as u32;
    48 <= n <= 57 || 65 <= n <= 90 || 97 <= n <= 122
}

/// Whether `c` may stand in a project key.
pub open spec fn is_word_char(c: char) -> bool {
    is_alphanumeric(c) || c == '-'
}

/// `s` with every character but ASCII letters and digits replaced by `-`.
pub open spec fn dashed(s: Seq<char>) -> Seq<char> {
    Seq::new(
        s.len(),
        |i: int|
            if is_alphanumeric(s[i]) {
                s[i]
            } else {
                '-'
            },
    )
}

/// `s` as the name of a directory.
pub open spec fn sanitized(s: Seq<char>) -> Seq<char> {
    if s.len() <= MAX_SANITIZED_LENGTH {
        dashed(s)
    } else {
        dashed(s).take(MAX_SANITIZED_LENGTH as int) + seq!['-'] + hash_text(s)
    }
}

/// Whether `c` is an ASCII letter or digit.
fn check_alphanumeric(c: char) -> (r: bool)
    ensures
        r == is_alphanumeric(c),
{
    let n: u32 = c as u32;
    (48 <= n && n <= 57) || (65 <= n && n <= 90) || (97 <= n && n <= 122)
}

/// Sanitizes a path for use as a directory name: replaces every
/// non-alphanumeric character with `-`, and truncates an over-long result to
/// [`MAX_SANITIZED_LENGTH`] and appends `-<hash>`, where the hash is over the
/// whole input.
pub fn sanitize_path(name: &str) -> (r: String)
    ensures
        r@ == sanitized(name@),
{
    let cs = to_chars(name);
    let n: usize = if cs.len() <= MAX_SANITIZED_LENGTH {
        cs.len()
    } else {
        MAX_SANITIZED_LENGTH
    };
    let mut r = String::new();
    let mut i: usize = 0;
    proof {
        assert(r@ =~= dashed(name@).take(0));
    }
    while i < n
        invariant
            cs@ == name@,
            i <= n <= name@.len(),
            r@ == dashed(name@).take(i as int),
        decreases n - i,
    {
        let c: char = if check_alphanumeric(cs[i]) {
            cs[i]
        } else {
            '-'
        };
        proof {
            assert(dashed(name@).take(i as int).push(c) =~= dashed(name@).take(i as int + 1));
        }
        r.push(c);
        i = i + 1;
    }
    if cs.len() > MAX_SANITIZED_LENGTH {
        let hash = simple_hash(name);
        let ghost was = r@;
        r.push('-');
        push_text(&mut r, &hash);
        proof {
            assert(r@ =~= was + seq!['-'] + hash@);
        }
    } else {
        proof {
            assert(dashed(name@).take(n as int) =~= dashed(name@));
        }
    }
    r
}

/// A sanitized path has at most 207 characters, all of them ASCII letters,
/// digits or `-`, and at most the characters of the path itself where that is
/// short.
pub proof fn law_sanitized_is_a_file_name(s: Seq<char>)
    ensures
        sanitized(s).len() <= MAX_SANITIZED_LENGTH + 7,
        s.len() <= MAX_SANITIZED_LENGTH ==> sanitized(s).len() == s.len(),
        forall|i: int| 0 <= i < sanitized(s).len() ==> is_word_char(#[trigger] sanitized(s)[i]),
{
    let h = hash_value(s);
    let m: nat = if h < 0 {
        (-h) as nat
    } else {
        h as nat
    };
    lemma_hash_range(s);
    lemma_base36_shape(m);
    assert(hash_text(s) == base36(m));
    assert forall|i: int| 0 <= i < sanitized(s).len() implies is_word_char(
        #[trigger] sanitized(s)[i],
    ) by {
        if s.len() > MAX_SANITIZED_LENGTH && i > MAX_SANITIZED_LENGTH {
            assert(sanitized(s)[i] == base36(m)[i - MAX_SANITIZED_LENGTH - 1]);
        }
    }
}

/// Sanitizing a short path twice changes nothing more.
pub proof fn law_sanitize_is_stable(s: Seq<char>)
    requires
        s.len() <= MAX_SANITIZED_LENGTH,
    ensures
        sanitized(sanitized(s)) == sanitized(s),
{
    assert(sanitized(sanitized(s)) =~= sanitized(s));
}

// ---------------------------------------------------------------------------
// Directories
// ---------------------------------------------------------------------------

/// Canonicalizes a directory path: the path to which it leads, in Unicode
/// normal form C.
///
/// `on_disk` is the path that the file system gives for `dir`, where there is
/// one. Otherwise the path is resolved lexically from the current directory
/// `cwd`.
pub fn canonicalize_path(dir: &str, on_disk: Option<&str>, cwd: &str) -> (r: String)
    ensures
        r@ == nfc_text(
            match on_disk {
                Some(p) => p@,
                None => real_path(dir@, cwd@),
            },
        ),
{
    match on_disk {
        Some(p) => nfc(p),
        None => nfc(&lexical_realpath(dir, cwd)),
    }
}

/// Derives the project key for a directory (the current one by default).
///
/// `on_disk` and `cwd` are as for [`canonicalize_path`].
pub fn project_key_for_directory(directory: Option<&str>, on_disk: Option<&str>, cwd: &str) -> (r:
    String)
    ensures
        r@ == sanitized(
            nfc_text(
                match on_disk {
                    Some(p) => p@,
                    None => real_path(
                        match directory {
                            Some(d) => d@,
                            None => "."@,
                        },
                        cwd@,
                    ),
                },
            ),
        ),
{
    let dir: &str = match directory {
        Some(d) => d,
        None => ".",
    };
    sanitize_path(&canonicalize_path(dir, on_disk, cwd))
}

// ---------------------------------------------------------------------------
// Keys of transcript files
// ---------------------------------------------------------------------------

/// The names that components are, where each is a name.
pub open spec fn part_names(parts: Seq<Part>) -> Option<Seq<Seq<char>>> {
    if forall|i: int| 0 <= i < parts.len() ==> parts[i] is Name {
        Some(Seq::new(parts.len(), |i: int| parts[i]->0))
    } else {
        None
    }
}

/// The names with the ending `.jsonl` of the last one taken off.
pub open spec fn without_ending(names: Seq<Seq<char>>) -> Seq<Seq<char>> {
    match before_suffix(names.last(), ".jsonl"@) {
        Some(stem) => names.drop_last().push(stem),
        None => names,
    }
}

/// The key of the transcript file with these names below the projects
/// directory.
pub open spec fn key_of_names(names: Seq<Seq<char>>) -> Option<Key> {
    if names.len() == 2 {
        match before_suffix(names[1], ".jsonl"@) {
            Some(id) => Some(Key { project_key: names[0], session_id: id, subpath: None }),
            None => None,
        }
    } else if names.len() >= 4 {
        let subpath = joined(without_ending(names.skip(2)), seq!['/']);
        if subpath_fault(subpath) is None {
            Some(Key { project_key: names[0], session_id: names[1], subpath: Some(subpath) })
        } else {
            None
        }
    } else {
        None
    }
}

/// The key of a transcript file.
pub open spec fn file_key(file_path: Seq<char>, projects_dir: Seq<char>) -> Option<Key> {
    match below(file_path, projects_dir) {
        Some(parts) => match part_names(parts) {
            Some(names) => key_of_names(names),
            None => None,
        },
        None => None,
    }
}

/// The names that components are, where each is a name.
pub fn names_of(parts: &Vec<PathPart>) -> (r: Option<Vec<String>>)
    ensures
        match r {
            Some(v) => part_names(crate::sessions::path::part_views(parts@)) == Some(
                text_views(v@),
            ),
            None => part_names(crate::sessions::path::part_views(parts@)) is None,
        },
{
    let ghost all = crate::sessions::path::part_views(parts@);
    let mut names: Vec<String> = Vec::new();
    let mut i: usize = 0;
    while i < parts.len()
        invariant
            all == crate::sessions::path::part_views(parts@),
            i <= parts@.len(),
            names@.len() == i,
            forall|j: int| 0 <= j < i ==> all[j] == Part::Name(#[trigger] names@[j]@),
        decreases parts@.len() - i,
    {
        proof {
            assert(all[i as int] == parts@[i as int]@);
        }
        match &parts[i] {
            PathPart::Name(n) => {
                names.push(n.clone());
            },
            _ => {
                return None;
            },
        }
        i = i + 1;
    }
    proof {
        assert forall|j: int| 0 <= j < all.len() implies all[j] is Name by {
            assert(all[j] == Part::Name(names@[j]@));
        }
        let ns = Seq::new(all.len(), |j: int| all[j]->0);
        assert(text_views(names@) =~= ns) by {
            assert forall|j: int| 0 <= j < all.len() implies #[trigger] text_views(names@)[j]
                == ns[j] by {
                assert(all[j] == Part::Name(names@[j]@));
            }
        }
    }
    Some(names)
}

/// Takes the ending `.jsonl` of the last name off and joins the names by `/`.
pub fn join_without_ending(names: Vec<String>) -> (r: String)
    requires
        names@.len() > 0,
    ensures
        r@ == joined(without_ending(text_views(names@)), seq!['/']),
{
    let mut parts = names;
    let ghost all = text_views(names@);
    proof {
        reveal_strlit("/");
        assert("/"@ =~= seq!['/']);
    }
    match parts.pop() {
        Some(last) => {
            proof {
                assert(text_views(parts@) =~= all.drop_last());
                assert(last@ == all.last());
            }
            let ghost were = parts@;
            match strip_suffix(&last, ".jsonl") {
                Some(stem) => {
                    parts.push(stem);
                    proof {
                        assert(text_views(parts@) =~= all.drop_last().push(stem@));
                    }
                },
                None => {
                    parts.push(last);
                    proof {
                        assert(text_views(parts@) =~= all);
                    }
                },
            }
        },
        None => {},
    }
    crate::text::join(&parts, "/")
}

/// Derives a [`SessionKey`] from an absolute transcript file path.
///
/// - Main transcript: `<projects_dir>/<project_key>/<session_id>.jsonl`
/// - Subagent transcript:
///   `<projects_dir>/<project_key>/<session_id>/subagents/.../agent-<id>.jsonl`
///
/// Returns `None` if `file_path` is not cleanly under `projects_dir` or has
/// another shape. The session identifier is kept as it stands in the path.
pub fn file_path_to_session_key(file_path: &str, projects_dir: &str) -> (r: Option<SessionKey>)
    ensures
        match r {
            Some(k) => file_key(file_path@, projects_dir@) == Some(k@),
            None => file_key(file_path@, projects_dir@) is None,
        },
{
    let parts = match strip_root(file_path, projects_dir) {
        Some(p) => p,
        None => return None,
    };
    let mut names = match names_of(&parts) {
        Some(n) => n,
        None => return None,
    };
    let ghost all = text_views(names@);
    if names.len() == 2 {
        return match strip_suffix(&names[1], ".jsonl") {
            Some(id) => {
                proof {
                    assert(all[0] == names@[0]@);
                    assert(all[1] == names@[1]@);
                }
                Some(SessionKey::new(&names[0], &id))
            },
            None => {
                proof {
                    assert(all[1] == names@[1]@);
                }
                None
            },
        };
    }
    if names.len() >= 4 {
        let ghost whole = names@;
        let tail = names.split_off(2);
        proof {
            assert(text_views(tail@) =~= all.skip(2)) by {
                assert(tail@ =~= whole.skip(2));
            }
            assert(all[0] == names@[0]@);
            assert(all[1] == names@[1]@);
        }
        let subpath = join_without_ending(tail);
        return match SessionKey::with_subpath(&names[0], &names[1], &subpath) {
            Ok(k) => Some(k),
            Err(_) => None,
        };
    }
    None
}

/// The pieces of two paths joined by a slash are the pieces of the one and
/// then those of the other.
proof fn lemma_split_joined(a: Seq<char>, b: Seq<char>)
    ensures
        split_on(a + seq!['/'] + b, '/') == split_on(a, '/') + split_on(b, '/'),
    decreases b.len(),
{
    let s = a + seq!['/'] + b;
    crate::text::law_join_undoes_split(a, '/');
    crate::text::law_join_undoes_split(b, '/');
    if b.len() == 0 {
        assert(s.drop_last() =~= a);
        assert(split_on(s, '/') =~= split_on(a, '/') + split_on(b, '/'));
    } else {
        lemma_split_joined(a, b.drop_last());
        crate::text::law_join_undoes_split(b.drop_last(), '/');
        assert(s.drop_last() =~= a + seq!['/'] + b.drop_last());
        assert(s.last() == b.last());
        let before = split_on(s.drop_last(), '/');
        let inner = split_on(b.drop_last(), '/');
        assert(before == split_on(a, '/') + inner);
        assert(before.last() == inner.last());
        assert(split_on(s, '/') =~= split_on(a, '/') + split_on(b, '/'));
    }
}

/// A text without a slash is one piece.
proof fn lemma_split_name(s: Seq<char>)
    requires
        !s.contains('/'),
    ensures
        split_on(s, '/') == seq![s],
    decreases s.len(),
{
    if s.len() > 0 {
        assert(!s.drop_last().contains('/')) by {
            if s.drop_last().contains('/') {
                let i = choose|i: int| 0 <= i < s.len() - 1 && s.drop_last()[i] == '/';
                assert(s[i] == '/');
            }
        }
        lemma_split_name(s.drop_last());
        assert(s.last() != '/') by {
            assert(s[s.len() - 1] == s.last());
        }
        assert(s.drop_last().push(s.last()) =~= s);
        assert(split_on(s, '/') =~= seq![s]);
    } else {
        assert(s =~= Seq::<char>::empty());
        assert(split_on(s, '/') =~= seq![s]);
    }
}

/// A file in a directory has the components of the directory and its name.
pub proof fn law_file_in_directory(dir: Seq<char>, name: Seq<char>)
    requires
        dir.len() > 0,
        is_file_name(name),
    ensures
        path_parts(dir + seq!['/'] + name) == path_parts(dir).push(Part::Name(name)),
{
    let s = dir + seq!['/'] + name;
    lemma_split_joined(dir, name);
    lemma_split_name(name);
    crate::text::law_join_undoes_split(dir, '/');
    let pieces = split_on(s, '/');
    assert(pieces =~= split_on(dir, '/').push(name));
    assert(pieces.drop_last() =~= split_on(dir, '/'));
    assert(pieces.last() == name);
    assert(s[0] == dir[0]);
    assert(path_parts(s) =~= path_parts(dir).push(Part::Name(name)));
}

/// The key of the main transcript of a session of a project is read off the
/// path of its file: the names of the directory and of the file, exactly.
pub proof fn law_main_transcript_key(
    projects_dir: Seq<char>,
    project_key: Seq<char>,
    session_id: Seq<char>,
)
    requires
        projects_dir.len() > 0,
        is_file_name(project_key),
        !session_id.contains('/'),
    ensures
        file_key(
            projects_dir + seq!['/'] + project_key + seq!['/'] + (session_id + ".jsonl"@),
            projects_dir,
        ) == Some(Key { project_key, session_id, subpath: None }),
{
    reveal_strlit(".jsonl");
    let name = session_id + ".jsonl"@;
    let dir = projects_dir + seq!['/'] + project_key;
    let file = dir + seq!['/'] + name;
    assert(!name.contains('/')) by {
        if name.contains('/') {
            let i = choose|i: int| 0 <= i < name.len() && name[i] == '/';
            if i < session_id.len() {
                assert(session_id[i] == '/');
            }
        }
    }
    law_file_in_directory(projects_dir, project_key);
    law_file_in_directory(dir, name);
    let root = path_parts(projects_dir);
    let parts = path_parts(file);
    assert(parts =~= root.push(Part::Name(project_key)).push(Part::Name(name)));
    assert(parts.subrange(0, root.len() as int) =~= root);
    let rest = parts.skip(root.len() as int);
    assert(rest =~= seq![Part::Name(project_key), Part::Name(name)]);
    let names = part_names(rest)->0;
    assert(names =~= seq![project_key, name]);
    assert(name.subrange(session_id.len() as int, name.len() as int) =~= ".jsonl"@);
    assert(name.take(name.len() - ".jsonl"@.len()) =~= session_id);
}

/// The hash of a text goes on character by character: 31 times the hash so
/// far and the character, as a signed number of 32 bits. Its text is the
/// number without its sign, in base 36.
pub proof fn law_hash_goes_on(s: Seq<char>, c: char)
    ensures
        hash_value(Seq::empty()) == 0,
        -0x8000_0000 <= hash_value(s.push(c)) < 0x8000_0000,
        (hash_value(s.push(c)) - (31 * hash_value(s) + c as u32)) % 0x1_0000_0000 == 0,
        base36_value(hash_text(s)) == if hash_value(s) < 0 {
            -hash_value(s)
        } else {
            hash_value(s)
        },
{
    assert(s.push(c).drop_last() =~= s);
    let h = hash_value(s);
    law_base36_reads_back(
        if h < 0 {
            (-h) as nat
        } else {
            h as nat
        },
    );
}

/// A project key keeps ASCII letters and digits where they stand, and has a
/// hyphen for any other character. Behind the 200th character of a longer path
/// it has a hyphen and the hash of the whole path.
pub proof fn law_project_keys(s: Seq<char>, i: int)
    requires
        0 <= i < s.len(),
        i < 200,
    ensures
        ({
            let n = s[i] as u32;
            sanitized(s)[i] == if 48 <= n <= 57 || 65 <= n <= 90 || 97 <= n <= 122 {
                s[i]
            } else {
                '-'
            }
        }),
        s.len() <= 200 ==> sanitized(s).len() == s.len(),
        s.len() > 200 ==> sanitized(s).skip(200) == seq!['-'] + hash_text(s),
{
    if s.len() > 200 {
        assert(sanitized(s).skip(200) =~= seq!['-'] + hash_text(s));
    }
}

/// A piece between slashes that leads upward is a part that does.
proof fn lemma_upward(pieces: Seq<Seq<char>>)
    ensures
        piece_parts(pieces).contains(Part::Parent) <==> pieces.contains(seq!['.', '.']),
    decreases pieces.len(),
{
    if pieces.len() > 0 {
        let front = pieces.drop_last();
        let last = pieces.last();
        let before = piece_parts(front);
        let now = piece_parts(pieces);
        lemma_upward(front);
        let up = seq!['.', '.'];
        assert(seq!['.'] != up) by {
            assert(seq!['.'].len() == 1 && up.len() == 2);
        }
        if now.contains(Part::Parent) {
            let k = choose|k: int| 0 <= k < now.len() && now[k] == Part::Parent;
            if k < before.len() {
                assert(before[k] == now[k]);
                let j = choose|j: int| 0 <= j < front.len() && front[j] == up;
                assert(pieces[j] == up);
            } else {
                assert(pieces[pieces.len() - 1] == up);
            }
        }
        if pieces.contains(up) {
            let j = choose|j: int| 0 <= j < pieces.len() && pieces[j] == up;
            if j < front.len() {
                assert(front[j] == up);
                let k = choose|k: int| 0 <= k < before.len() && before[k] == Part::Parent;
                assert(now[k] == Part::Parent);
            } else {
                assert(now[now.len() - 1] == Part::Parent);
            }
        }
    }
}

/// What is wrong with a subpath: that it is empty, that it has a NUL, that it
/// begins with a slash, or that a piece of it is two points, whichever of
/// these comes first. Nothing is wrong with any other.
pub proof fn law_faults_of_subpaths(s: Seq<char>)
    ensures
        s.len() == 0 ==> subpath_fault(s) == Some(SubpathFault::Empty),
        s.len() > 0 && s.contains('\0') ==> subpath_fault(s) == Some(SubpathFault::Nul),
        s.len() > 0 && !s.contains('\0') && s[0] == '/' ==> subpath_fault(s) == Some(
            SubpathFault::Absolute,
        ),
        s.len() > 0 && !s.contains('\0') && s[0] != '/' && split_on(s, '/').contains(
            seq!['.', '.'],
        ) ==> subpath_fault(s) == Some(SubpathFault::Traverses),
        s.len() > 0 && !s.contains('\0') && s[0] != '/' && !split_on(s, '/').contains(
            seq!['.', '.'],
        ) ==> subpath_fault(s) is None,
{
    lemma_upward(split_on(s, '/'));
    if s.len() > 0 && s[0] != '/' {
        assert(path_parts(s) =~= piece_parts(split_on(s, '/')));
    }
}

/// The key of a file below the projects' directory goes by the names of the
/// directories on the way to it. Two names are a project and a transcript.
/// Four and more are a project, a session and a subpath, whose parts are joined
/// by slashes and whose last one loses its ending. Other files have no key, and
/// neither have files elsewhere or with other parts in their way.
pub proof fn law_keys_of_files(
    file_path: Seq<char>,
    projects_dir: Seq<char>,
    names: Seq<Seq<char>>,
    stem: Seq<char>,
)
    requires
        names.len() > 0,
        names.last() == stem + ".jsonl"@,
        path_parts(file_path) == path_parts(projects_dir) + Seq::new(
            names.len(),
            |i: int| Part::Name(names[i]),
        ),
    ensures
        names.len() == 2 ==> file_key(file_path, projects_dir) == Some(
            Key { project_key: names[0], session_id: stem, subpath: None },
        ),
        names.len() >= 4 ==> ({
            let subpath = joined(
                names.subrange(2, names.len() - 1).push(stem),
                seq!['/'],
            );
            file_key(file_path, projects_dir) == if subpath_fault(subpath) is None {
                Some(
                    Key {
                        project_key: names[0],
                        session_id: names[1],
                        subpath: Some(subpath),
                    },
                )
            } else {
                None
            }
        }),
        names.len() == 1 || names.len() == 3 ==> file_key(file_path, projects_dir) is None,
{
    let parts = Seq::new(names.len(), |i: int| Part::Name(names[i]));
    let root = path_parts(projects_dir);
    assert(root.is_prefix_of(path_parts(file_path)));
    assert(path_parts(file_path).skip(root.len() as int) =~= parts);
    assert forall|i: int| 0 <= i < parts.len() implies parts[i] is Name by {}
    assert(part_names(parts) is Some);
    assert(part_names(parts)->0 =~= names);
    let end = ".jsonl"@;
    let last = names.last();
    assert(end.is_suffix_of(last)) by {
        assert(last.subrange(last.len() - end.len(), last.len() as int) =~= end);
    }
    assert(last.take(last.len() - end.len()) =~= stem);
    if names.len() >= 4 {
        let rest = names.skip(2);
        assert(rest.last() == last);
        assert(rest.drop_last() =~= names.subrange(2, names.len() - 1));
    }
    if names.len() == 2 {
        assert(names[1] == last);
    }
}

/// A file that is not below the projects' directory, or on the way to which
/// there is a part that is no name, has no key.
pub proof fn law_other_files_have_no_key(file_path: Seq<char>, projects_dir: Seq<char>, i: int)
    requires
        !path_parts(projects_dir).is_prefix_of(path_parts(file_path)) || (path_parts(
            projects_dir,
        ).len() <= i < path_parts(file_path).len() && !(path_parts(file_path)[i] is Name)),
    ensures
        file_key(file_path, projects_dir) is None,
{
    let root = path_parts(projects_dir);
    let all = path_parts(file_path);
    if root.is_prefix_of(all) {
        let parts = all.skip(root.len() as int);
        assert(parts[i - root.len()] == all[i]);
        assert(part_names(parts) is None);
    }
}

/// A transcript is stored under its project, its session and, for a subagent,
/// its subpath, with slashes between them.
pub proof fn law_storage_texts(project_key: Seq<char>, session_id: Seq<char>, subpath: Seq<char>)
    ensures
        storage_text(Key { project_key, session_id, subpath: None }) == project_key + seq!['/']
            + session_id,
        storage_text(Key { project_key, session_id, subpath: Some(subpath) }) == project_key
            + seq!['/'] + session_id + seq!['/'] + subpath,
        prefix_text(project_key, session_id) == project_key + seq!['/'] + session_id + seq!['/'],
{
}

} // verus!
