//! Windows paths: `\` parts them as `/` does, and they may begin with a drive.
//!
//! A storage key looks the same on every system. Only the checks of a subpath
//! and the way from a file to its key depend on how the system writes paths.
use vstd::prelude::*;

use crate::error::ClaudeError;
use crate::sessions::key::{
    fault_error, fault_text, file_key, file_path_to_session_key, has_char, subpath_fault,
    validate_subpath, Key, SessionKey, SubpathFault,
};
use crate::sessions::path::{goes_up, is_absolute, is_absolute_path, path_parts, resolved, Part};
use crate::text::{from_range, replace_char, replaced, to_chars};

verus! {

broadcast use vstd::string::group_string_axioms;

/// An ASCII letter.
pub open spec fn is_letter(c: char) -> bool {
    let n = c as u32;
    (65 <= n && n <= 90) || (97 <= n && n <= 122)
}

/// A path with `/` between its parts.
pub open spec fn slashed(path: Seq<char>) -> Seq<char> {
    replaced(path, '\\', '/')
}

/// The number of a drive's letter. A letter and its capital name one drive.
pub open spec fn drive_number(c: char) -> u32 {
    let n = c as u32;
    if n >= 97 {
        (n - 32) as u32
    } else {
        n
    }
}

/// The drive that a path begins with, by the number of its capital letter.
pub open spec fn drive_of(path: Seq<char>) -> Option<u32> {
    if path.len() >= 2 && path[1] == ':' && is_letter(path[0]) {
        Some(drive_number(path[0]))
    } else {
        None
    }
}

/// What stands behind the drive of a path, with `/` between its parts.
pub open spec fn behind_drive(path: Seq<char>) -> Seq<char> {
    slashed(
        if drive_of(path) is Some {
            path.skip(2)
        } else {
            path
        },
    )
}

/// A path with `/` between its parts.
pub fn slash(path: &str) -> (r: String)
    ensures
        r@ == slashed(path@),
{
    replace_char(path, '\\', '/')
}

/// The drive that a path begins with, by the number of its capital letter.
pub fn find_drive(path: &str) -> (r: Option<u32>)
    ensures
        r == drive_of(path@),
{
    let cs = to_chars(path);
    if cs.len() >= 2 && cs[1] == ':' {
        let n: u32 = cs[0] as u32;
        if 65 <= n && n <= 90 {
            return Some(n);
        }
        if 97 <= n && n <= 122 {
            return Some(n - 32);
        }
    }
    None
}

/// What stands behind the drive of a path, with `/` between its parts.
fn cut_drive(path: &str) -> (r: String)
    ensures
        r@ == behind_drive(path@),
{
    if find_drive(path).is_some() {
        let cs = to_chars(path);
        let rest = from_range(&cs, 2, cs.len());
        proof {
            assert(rest@ =~= path@.skip(2));
        }
        slash(&rest)
    } else {
        slash(path)
    }
}

// ---------------------------------------------------------------------------
// Subpaths
// ---------------------------------------------------------------------------

/// What is wrong with a subpath on Windows, if anything is. A drive, or a slash
/// of either kind at the start, makes it one that is not relative.
pub open spec fn windows_subpath_fault(s: Seq<char>) -> Option<SubpathFault> {
    if s.len() == 0 {
        Some(SubpathFault::Empty)
    } else if s.contains('\0') {
        Some(SubpathFault::Nul)
    } else if drive_of(s) is Some || is_absolute_path(slashed(s)) {
        Some(SubpathFault::Absolute)
    } else if path_parts(slashed(s)).contains(Part::Parent) {
        Some(SubpathFault::Traverses)
    } else {
        None
    }
}

/// What is wrong with a subpath on a system, if anything is.
pub open spec fn subpath_fault_on(s: Seq<char>, windows: bool) -> Option<SubpathFault> {
    if windows {
        windows_subpath_fault(s)
    } else {
        subpath_fault(s)
    }
}

/// What stands in the place of slashes is no NUL.
proof fn lemma_slashed(s: Seq<char>)
    ensures
        slashed(s).len() == s.len(),
        slashed(s).contains('\0') == s.contains('\0'),
{
    let t = slashed(s);
    if t.contains('\0') {
        let i = choose|i: int| 0 <= i < t.len() && t[i] == '\0';
        assert(s[i] == '\0');
    }
    if s.contains('\0') {
        let i = choose|i: int| 0 <= i < s.len() && s[i] == '\0';
        assert(t[i] == '\0');
    }
}

/// Validates that `subpath` is a safe relative storage-key suffix on a system:
/// on Windows with both slashes, and without a drive.
pub fn validate_subpath_on(subpath: &str, windows: bool) -> (r: Result<(), ClaudeError>)
    ensures
        match r {
            Ok(()) => subpath_fault_on(subpath@, windows) is None,
            Err(e) => subpath_fault_on(subpath@, windows) is Some && e.is_invalid_config(
                fault_text(subpath_fault_on(subpath@, windows)->0, subpath@),
            ),
        },
{
    if !windows {
        return validate_subpath(subpath);
    }
    proof {
        lemma_slashed(subpath@);
    }
    let cs = to_chars(subpath);
    if cs.len() == 0 || has_char(subpath, '\0') {
        return validate_subpath(subpath);
    }
    let bare = slash(subpath);
    if find_drive(subpath).is_some() || is_absolute(&bare) {
        return Err(fault_error(false, subpath));
    }
    if goes_up(&bare) {
        return Err(fault_error(true, subpath));
    }
    Ok(())
}

/// A subpath that is valid on Windows leads, from whatever directory it is
/// resolved in, to that directory or to a place below it.
pub proof fn law_valid_windows_subpath_stays_inside(subpath: Seq<char>, from: Seq<Seq<char>>)
    requires
        windows_subpath_fault(subpath) is None,
    ensures
        from.is_prefix_of(resolved(from, path_parts(slashed(subpath)))),
{
    lemma_slashed(subpath);
    crate::sessions::key::law_valid_subpath_stays_inside(slashed(subpath), from);
}

// ---------------------------------------------------------------------------
// Keys
// ---------------------------------------------------------------------------

impl SessionKey {
    /// Constructs a subagent key as [`SessionKey::with_subpath`] does, after
    /// validating that the subpath is safe on a system.
    pub fn with_subpath_on(
        project_key: &str,
        session_id: &str,
        subpath: &str,
        windows: bool,
    ) -> (r: Result<Self, ClaudeError>)
        ensures
            match r {
                Ok(k) => subpath_fault_on(subpath@, windows) is None && k@ == (Key {
                    project_key: project_key@,
                    session_id: session_id@,
                    subpath: Some(subpath@),
                }),
                Err(e) => subpath_fault_on(subpath@, windows) is Some && e.is_invalid_config(
                    fault_text(subpath_fault_on(subpath@, windows)->0, subpath@),
                ),
            },
    {
        match validate_subpath_on(subpath, windows) {
            Ok(()) => Ok(
                SessionKey {
                    project_key: project_key.to_owned(),
                    session_id: session_id.to_owned(),
                    subpath: Some(subpath.to_owned()),
                },
            ),
            Err(e) => Err(e),
        }
    }
}

/// The key of a transcript file on Windows. File and directory have to be on
/// the same drive.
pub open spec fn windows_file_key(file_path: Seq<char>, projects_dir: Seq<char>) -> Option<Key> {
    if drive_of(file_path) == drive_of(projects_dir) {
        match file_key(behind_drive(file_path), behind_drive(projects_dir)) {
            Some(k) => if k.subpath matches Some(s) && windows_subpath_fault(s) is Some {
                None
            } else {
                Some(k)
            },
            None => None,
        }
    } else {
        None
    }
}

/// The key of a transcript file on a system.
pub open spec fn file_key_on(
    file_path: Seq<char>,
    projects_dir: Seq<char>,
    windows: bool,
) -> Option<Key> {
    if windows {
        windows_file_key(file_path, projects_dir)
    } else {
        file_key(file_path, projects_dir)
    }
}

/// Derives a [`SessionKey`] from an absolute transcript file path of a system,
/// as [`file_path_to_session_key`] does. The subpath is joined by `/` on every
/// system.
pub fn file_path_to_session_key_on(file_path: &str, projects_dir: &str, windows: bool) -> (r:
    Option<SessionKey>)
    ensures
        match r {
            Some(k) => file_key_on(file_path@, projects_dir@, windows) == Some(k@),
            None => file_key_on(file_path@, projects_dir@, windows) is None,
        },
{
    if !windows {
        return file_path_to_session_key(file_path, projects_dir);
    }
    match (find_drive(file_path), find_drive(projects_dir)) {
        (Some(a), Some(b)) => {
            if a != b {
                return None;
            }
        },
        (None, None) => {},
        _ => {
            return None;
        },
    }
    match file_path_to_session_key(&cut_drive(file_path), &cut_drive(projects_dir)) {
        Some(key) => {
            let valid: bool = match &key.subpath {
                Some(s) => validate_subpath_on(s, true).is_ok(),
                None => true,
            };
            if valid {
                Some(key)
            } else {
                None
            }
        },
        None => None,
    }
}

/// Where a system is not Windows, nothing is special about its paths. On
/// Windows a drive or a slash of either kind at the start makes a subpath one
/// that is not relative, and two points between slashes of either kind make it
/// one that leads upward.
pub proof fn law_subpaths_on_systems(s: Seq<char>, file_path: Seq<char>, projects_dir: Seq<char>)
    ensures
        subpath_fault_on(s, false) == subpath_fault(s),
        file_key_on(file_path, projects_dir, false) == file_key(file_path, projects_dir),
        s.len() == 0 ==> subpath_fault_on(s, true) == Some(SubpathFault::Empty),
        s.len() > 0 && s.contains('\0') ==> subpath_fault_on(s, true) == Some(SubpathFault::Nul),
        s.len() > 0 && !s.contains('\0') && (s[0] == '/' || s[0] == '\\') ==> subpath_fault_on(
            s,
            true,
        ) == Some(SubpathFault::Absolute),
        s.len() > 1 && !s.contains('\0') && s[1] == ':' && (65 <= s[0] as u32 <= 90 || 97
            <= s[0] as u32 <= 122) ==> subpath_fault_on(s, true) == Some(SubpathFault::Absolute),
        !s.contains('\\') && !s.contains(':') ==> subpath_fault_on(s, true) == subpath_fault(s),
{
    if !s.contains('\\') {
        assert(slashed(s) =~= s) by {
            assert forall|i: int| 0 <= i < s.len() implies s[i] != '\\' by {}
        }
    }
    if s.len() > 1 && !s.contains(':') {
        assert(s[1] != ':');
    }
}

/// A subpath on Windows is judged by its parts, whichever slashes part them.
pub proof fn law_either_slash_parts(s: Seq<char>)
    requires
        s.len() > 0,
        !s.contains('\0'),
    ensures
        subpath_fault_on(slashed(s), true) == subpath_fault_on(s, true),
{
    let t = slashed(s);
    assert(slashed(t) =~= t);
    assert(!t.contains('\0')) by {
        if t.contains('\0') {
            let i = choose|i: int| 0 <= i < t.len() && t[i] == '\0';
            assert(s[i] == '\0');
        }
    }
    assert(drive_of(t) == drive_of(s)) by {
        if s.len() >= 2 {
            assert(t[0] == if s[0] == '\\' {
                '/'
            } else {
                s[0]
            });
            assert(t[1] == if s[1] == '\\' {
                '/'
            } else {
                s[1]
            });
        }
    }
}

/// On Windows the key of a file does not depend on which slashes its path has,
/// nor on whether the letters of the drives are small. Files on other drives
/// have no key.
pub proof fn law_keys_on_windows(file_path: Seq<char>, projects_dir: Seq<char>, drive: char, other: char)
    requires
        65 <= drive as u32 <= 90,
        97 <= other as u32 <= 122,
    ensures
        ({
            let f = seq![drive, ':'] + file_path;
            let d = seq![drive, ':'] + projects_dir;
            let small = seq![other, ':'] + file_path;
            &&& file_key_on(slashed(f), d, true) == file_key_on(f, d, true)
            &&& other as u32 == drive as u32 + 32 ==> file_key_on(small, d, true) == file_key_on(
                f,
                d,
                true,
            )
            &&& other as u32 != drive as u32 + 32 ==> file_key_on(small, d, true) is None
            &&& (file_key_on(f, d, true) matches Some(k) ==> file_key(
                slashed(file_path),
                slashed(projects_dir),
            ) == Some(k))
        }),
{
    let f = seq![drive, ':'] + file_path;
    let d = seq![drive, ':'] + projects_dir;
    let small = seq![other, ':'] + file_path;
    assert(f.skip(2) =~= file_path);
    assert(d.skip(2) =~= projects_dir);
    assert(small.skip(2) =~= file_path);
    let g = slashed(f);
    assert(g[0] == drive && g[1] == ':');
    assert(slashed(g.skip(2)) =~= slashed(file_path));
}

} // verus!
