//! Finding and listing sessions on disk: where to look, what a file name
//! means, and how the sessions that were found are merged.
//!
//! Nothing here reads the file system. The functions take what was found
//! there and say what it means.
use vstd::prelude::*;

use crate::sessions::key::{sanitize_path, sanitized, MAX_SANITIZED_LENGTH};
use crate::sessions::lite::{is_uuid, validate_uuid, LiteSessionFile};
use crate::sessions::path::{join_path, joined_path};
use crate::sessions::sorting::{sort_desc, sorted_desc, Ranked};
use crate::sessions::store::{info_views, Info, SDKSessionInfo};
use crate::sessions::transcript::{list_has, page, paged};
use crate::text::{
    after_prefix, before_suffix, concat, nonempty_view, same, split, split_on, starts_with,
    str_view, strip_prefix, strip_suffix, text_view, text_views, to_chars,
};
use crate::unicode::{decode_lossy, lossy_text, lower, lower_text, nfc, nfc_text};

verus! {

broadcast use vstd::string::group_string_axioms;

// ---------------------------------------------------------------------------
// Directories
// ---------------------------------------------------------------------------

/// The first of two texts that is not empty.
pub open spec fn first_nonempty(a: Option<Seq<char>>, b: Option<Seq<char>>) -> Option<Seq<char>> {
    match nonempty_view(a) {
        Some(x) => Some(x),
        None => nonempty_view(b),
    }
}

/// Whether there is a text and it is not empty.
fn is_full(s: Option<&str>) -> (r: bool)
    ensures
        r == (nonempty_view(str_view(s)) is Some),
{
    match s {
        Some(t) => {
            let cs = to_chars(t);
            cs.len() > 0
        },
        None => false,
    }
}

/// The directory that a search is for: an empty one stands for none, and a
/// search without a directory goes through all projects.
pub fn named_directory<'a>(directory: Option<&'a str>) -> (r: Option<&'a str>)
    ensures
        str_view(r) == nonempty_view(str_view(directory)),
{
    if is_full(directory) {
        directory
    } else {
        None
    }
}

/// Best-effort home directory: `$HOME`, or else `%USERPROFILE%`.
pub fn home_dir<'a>(home: Option<&'a str>, user_profile: Option<&'a str>) -> (r: Option<&'a str>)
    ensures
        str_view(r) == first_nonempty(str_view(home), str_view(user_profile)),
{
    if is_full(home) {
        home
    } else if is_full(user_profile) {
        user_profile
    } else {
        None
    }
}

/// The configuration directory before it is brought to a normal form: the one
/// that is named, or else the hidden directory of the agent's program in the
/// home directory.
pub open spec fn config_dir(
    config: Option<Seq<char>>,
    home: Option<Seq<char>>,
    program: Seq<char>,
) -> Seq<char> {
    match nonempty_view(config) {
        Some(dir) => dir,
        None => match home {
            Some(h) => joined_path(h, "."@ + program),
            None => joined_path("."@, "."@ + program),
        },
    }
}

/// The configuration directory: `CLAUDE_CONFIG_DIR` where it is set, or else
/// the hidden one of the agent's program in the home directory.
pub fn claude_config_home_dir(config_env: Option<&str>, home: Option<&str>, program: &str) -> (r:
    String)
    ensures
        r@ == nfc_text(config_dir(str_view(config_env), str_view(home), program@)),
{
    match config_env {
        Some(dir) => {
            let cs = to_chars(dir);
            if cs.len() > 0 {
                return nfc(dir);
            }
        },
        None => {},
    }
    match home {
        Some(h) => nfc(&join_path(h, &concat(".", program))),
        None => nfc(&join_path(".", &concat(".", program))),
    }
}

/// The projects directory (`<config>/projects`).
///
/// `override_dir` is the `CLAUDE_CONFIG_DIR` that a caller sets for a
/// subprocess. It comes before that of the process itself.
pub fn get_projects_dir(
    override_dir: Option<&str>,
    config_env: Option<&str>,
    home: Option<&str>,
    program: &str,
) -> (r: String)
    ensures
        r@ == joined_path(
            nfc_text(
                config_dir(
                    first_nonempty(str_view(override_dir), str_view(config_env)),
                    str_view(home),
                    program@,
                ),
            ),
            "projects"@,
        ),
{
    let dir = if is_full(override_dir) {
        claude_config_home_dir(override_dir, home, program)
    } else {
        claude_config_home_dir(config_env, home, program)
    };
    join_path(&dir, "projects")
}

/// The project directory for a project path (`<projects>/<sanitized>`).
pub fn get_project_dir(projects_dir: &str, project_path: &str) -> (r: String)
    ensures
        r@ == joined_path(projects_dir@, sanitized(project_path@)),
{
    join_path(projects_dir, &sanitize_path(project_path))
}

/// The first name that begins with a text.
pub open spec fn first_with_prefix(names: Seq<Seq<char>>, p: Seq<char>) -> Option<Seq<char>>
    decreases names.len(),
{
    if names.len() == 0 {
        None
    } else if p.is_prefix_of(names[0]) {
        Some(names[0])
    } else {
        first_with_prefix(names.skip(1), p)
    }
}

/// The name of the directory of a project: the sanitized path where there is
/// such a directory, or else, for a long path, the first that differs in its
/// hash only.
pub open spec fn project_dir_name(
    project_path: Seq<char>,
    exact_exists: bool,
    names: Seq<Seq<char>>,
) -> Option<Seq<char>> {
    let s = sanitized(project_path);
    if exact_exists {
        Some(s)
    } else if s.len() <= MAX_SANITIZED_LENGTH {
        None
    } else {
        first_with_prefix(names, s.take(MAX_SANITIZED_LENGTH as int).push('-'))
    }
}

/// Finds the name of the directory of a project, given whether the directory
/// with its sanitized path exists, and the names of all project directories.
pub fn find_project_dir(project_path: &str, exact_exists: bool, names: &Vec<String>) -> (r: Option<
    String,
>)
    ensures
        text_view(r) == project_dir_name(project_path@, exact_exists, text_views(names@)),
{
    let s = sanitize_path(project_path);
    if exact_exists {
        return Some(s);
    }
    let cs = to_chars(&s);
    if cs.len() <= MAX_SANITIZED_LENGTH {
        return None;
    }
    let mut prefix = crate::text::from_range(&cs, 0, MAX_SANITIZED_LENGTH);
    prefix.push('-');
    proof {
        assert(s@.subrange(0, MAX_SANITIZED_LENGTH as int) =~= s@.take(
            MAX_SANITIZED_LENGTH as int,
        ));
    }
    find_with_prefix(names, &prefix)
}

/// The first name that begins with a text.
fn find_with_prefix(names: &Vec<String>, prefix: &str) -> (r: Option<String>)
    ensures
        text_view(r) == first_with_prefix(text_views(names@), prefix@),
{
    let ghost all = text_views(names@);
    let mut i: usize = 0;
    proof {
        assert(all.skip(0) =~= all);
    }
    while i < names.len()
        invariant
            all == text_views(names@),
            i <= names@.len(),
            first_with_prefix(all, prefix@) == first_with_prefix(all.skip(i as int), prefix@),
        decreases names@.len() - i,
    {
        proof {
            assert(all.skip(i as int)[0] == names@[i as int]@);
            assert(all.skip(i as int).skip(1) =~= all.skip(i as int + 1));
        }
        if starts_with(&names[i], prefix) {
            return Some(names[i].clone());
        }
        i = i + 1;
    }
    None
}

// ---------------------------------------------------------------------------
// Worktrees
// ---------------------------------------------------------------------------

/// The paths, in normal form, on the lines that begin with `worktree `.
pub open spec fn worktrees_in(lines: Seq<Seq<char>>) -> Seq<Seq<char>>
    decreases lines.len(),
{
    if lines.len() == 0 {
        Seq::empty()
    } else {
        let before = worktrees_in(lines.drop_last());
        match after_prefix(lines.last(), "worktree "@) {
            Some(path) => before.push(nfc_text(path)),
            None => before,
        }
    }
}

/// The worktree paths in what `git worktree list --porcelain` prints.
pub fn parse_worktree_paths(stdout: &[u8]) -> (r: Vec<String>)
    ensures
        text_views(r@) == worktrees_in(split_on(lossy_text(stdout@), '\n')),
{
    let lines = split(&decode_lossy(stdout), '\n');
    let ghost all = text_views(lines@);
    let mut out: Vec<String> = Vec::new();
    let mut i: usize = 0;
    proof {
        assert(all.take(0) =~= Seq::<Seq<char>>::empty());
        assert(text_views(out@) =~= Seq::<Seq<char>>::empty());
    }
    while i < lines.len()
        invariant
            all == text_views(lines@),
            i <= lines@.len(),
            text_views(out@) == worktrees_in(all.take(i as int)),
        decreases lines@.len() - i,
    {
        let ghost were = out@;
        proof {
            assert(all.take(i as int + 1).drop_last() =~= all.take(i as int));
            assert(all.take(i as int + 1).last() == lines@[i as int]@);
        }
        match strip_prefix(&lines[i], "worktree ") {
            Some(path) => {
                let p = nfc(&path);
                out.push(p);
                proof {
                    assert(text_views(out@) =~= text_views(were).push(p@));
                }
            },
            None => {},
        }
        i = i + 1;
    }
    proof {
        assert(all.take(all.len() as int) =~= all);
    }
    out
}

/// The paths in which a session of a project is looked for: the project
/// itself, then its other worktrees.
pub open spec fn search_order(canonical: Seq<char>, worktrees: Seq<Seq<char>>) -> Seq<Seq<char>> {
    seq![canonical] + worktrees.filter(|w: Seq<char>| w != canonical)
}

/// The paths in which a session of a project is looked for.
pub fn search_paths(canonical: &str, worktrees: &Vec<String>) -> (r: Vec<String>)
    ensures
        text_views(r@) == search_order(canonical@, text_views(worktrees@)),
{
    let ghost all = text_views(worktrees@);
    let ghost keep = |w: Seq<char>| w != canonical@;
    let mut out: Vec<String> = Vec::new();
    out.push(canonical.to_owned());
    let mut i: usize = 0;
    proof {
        reveal(Seq::filter);
        assert(all.take(0) =~= Seq::<Seq<char>>::empty());
        assert(text_views(out@) =~= seq![canonical@] + all.take(0).filter(keep));
    }
    while i < worktrees.len()
        invariant
            all == text_views(worktrees@),
            keep == (|w: Seq<char>| w != canonical@),
            i <= worktrees@.len(),
            text_views(out@) == seq![canonical@] + all.take(i as int).filter(keep),
        decreases worktrees@.len() - i,
    {
        let ghost were = out@;
        proof {
            reveal(Seq::filter);
            assert(all.take(i as int + 1).drop_last() =~= all.take(i as int));
            assert(all.take(i as int + 1).last() == worktrees@[i as int]@);
        }
        if !same(&worktrees[i], canonical) {
            out.push(worktrees[i].clone());
            proof {
                assert(text_views(out@) =~= text_views(were).push(worktrees@[i as int]@));
                assert(text_views(out@) =~= seq![canonical@] + all.take(i as int + 1).filter(
                    keep,
                ));
            }
        }
        i = i + 1;
    }
    proof {
        assert(all.take(all.len() as int) =~= all);
    }
    out
}

/// A worktree with the name of its project directory.
#[derive(Debug)]
struct Worktree {
    path: String,
    name: String,
    length: i64,
}

/// A worktree with the name of its project directory, and the length of the
/// name.
pub ghost struct NamedPath {
    pub path: Seq<char>,
    pub name: Seq<char>,
    pub length: int,
}

impl View for Worktree {
    type V = NamedPath;

    closed spec fn view(&self) -> NamedPath {
        NamedPath { path: self.path@, name: self.name@, length: self.length as int }
    }
}

impl Ranked for Worktree {
    closed spec fn rank_of(&self) -> int {
        self.length as int
    }

    fn rank(&self) -> (r: i64) {
        self.length
    }
}

/// The name of a directory as it is compared: where case is ignored, in lower
/// case.
pub open spec fn folded(name: Seq<char>, ignore_case: bool) -> Seq<char> {
    if ignore_case {
        lower_text(name)
    } else {
        name
    }
}

/// The names of directories as they are compared.
pub open spec fn folded_names(names: Seq<Seq<char>>, ignore_case: bool) -> Seq<Seq<char>> {
    Seq::new(names.len(), |i: int| folded(names[i], ignore_case))
}

/// The name of a directory as it is compared.
fn fold(name: &str, ignore_case: bool) -> (r: String)
    ensures
        r@ == folded(name@, ignore_case),
{
    if ignore_case {
        lower(name)
    } else {
        name.to_owned()
    }
}

/// The names of directories as they are compared.
fn fold_names(names: &Vec<String>, ignore_case: bool) -> (r: Vec<String>)
    ensures
        text_views(r@) == folded_names(text_views(names@), ignore_case),
{
    let mut out: Vec<String> = Vec::new();
    let mut i: usize = 0;
    while i < names.len()
        invariant
            i <= names@.len(),
            out@.len() == i,
            forall|j: int|
                0 <= j < i ==> (#[trigger] out@[j])@ == folded(names@[j]@, ignore_case),
        decreases names@.len() - i,
    {
        out.push(fold(&names[i], ignore_case));
        i = i + 1;
    }
    proof {
        assert(text_views(out@) =~= folded_names(text_views(names@), ignore_case));
    }
    out
}

/// Worktrees with the names of their project directories.
pub open spec fn named_worktrees(paths: Seq<Seq<char>>, ignore_case: bool) -> Seq<NamedPath> {
    Seq::new(
        paths.len(),
        |i: int|
            NamedPath {
                path: paths[i],
                name: folded(sanitized(paths[i]), ignore_case),
                length: sanitized(paths[i]).len() as int,
            },
    )
}

/// Worktrees, those with the longest names first.
pub open spec fn ordered_worktrees(paths: Seq<Seq<char>>, ignore_case: bool) -> Seq<NamedPath> {
    sorted_desc(named_worktrees(paths, ignore_case), |w: NamedPath| w.length)
}

/// Whether a directory is the project directory of a worktree: it has its
/// name, or for a cut name the same up to the hash.
pub open spec fn is_dir_of(dir: Seq<char>, name: Seq<char>) -> bool {
    dir == name || (name.len() >= MAX_SANITIZED_LENGTH && name.push('-').is_prefix_of(dir))
}

/// The path of the first worktree whose project directory a directory is.
pub open spec fn worktree_of(dir: Seq<char>, worktrees: Seq<NamedPath>) -> Option<Seq<char>>
    decreases worktrees.len(),
{
    if worktrees.len() == 0 {
        None
    } else if is_dir_of(dir, worktrees[0].name) {
        Some(worktrees[0].path)
    } else {
        worktree_of(dir, worktrees.skip(1))
    }
}

/// The directories that were picked, by position and with the worktree they
/// belong to, and the names that were seen.
pub ghost struct Picked {
    pub dirs: Seq<(int, Seq<char>)>,
    pub seen: Seq<Seq<char>>,
}

/// The directories that belong to worktrees, each name once and none that is
/// `done` already.
pub open spec fn picked_dirs(
    names: Seq<Seq<char>>,
    done: Option<Seq<char>>,
    worktrees: Seq<NamedPath>,
) -> Picked
    decreases names.len(),
{
    if names.len() == 0 {
        Picked {
            dirs: Seq::empty(),
            seen: match done {
                Some(d) => seq![d],
                None => Seq::empty(),
            },
        }
    } else {
        let before = picked_dirs(names.drop_last(), done, worktrees);
        let name = names.last();
        if before.seen.contains(name) {
            before
        } else {
            match worktree_of(name, worktrees) {
                Some(path) => Picked {
                    dirs: before.dirs.push((names.len() - 1, path)),
                    seen: before.seen.push(name),
                },
                None => before,
            }
        }
    }
}

/// The picked directories by their positions.
pub open spec fn pick_views(v: Seq<(usize, String)>) -> Seq<(int, Seq<char>)> {
    Seq::new(v.len(), |i: int| (v[i].0 as int, v[i].1@))
}

/// The worktrees by their texts.
spec fn worktree_views(v: Seq<Worktree>) -> Seq<NamedPath> {
    Seq::new(v.len(), |i: int| v[i]@)
}

/// Worktrees, those with the longest names first.
fn order_worktrees(paths: &Vec<String>, ignore_case: bool) -> (r: Vec<Worktree>)
    ensures
        worktree_views(r@) == ordered_worktrees(text_views(paths@), ignore_case),
{
    let ghost all = named_worktrees(text_views(paths@), ignore_case);
    let mut out: Vec<Worktree> = Vec::new();
    let mut i: usize = 0;
    while i < paths.len()
        invariant
            all == named_worktrees(text_views(paths@), ignore_case),
            i <= paths@.len(),
            out@.len() == i,
            forall|j: int| 0 <= j < i ==> (#[trigger] out@[j])@ == all[j],
        decreases paths@.len() - i,
    {
        let name = sanitize_path(&paths[i]);
        proof {
            crate::sessions::key::law_sanitized_is_a_file_name(paths@[i as int]@);
        }
        let cs = to_chars(&name);
        let length: i64 = cs.len() as i64;
        out.push(Worktree { path: paths[i].clone(), name: fold(&name, ignore_case), length });
        i = i + 1;
    }
    proof {
        assert(worktree_views(out@) =~= all);
        crate::sessions::sorting::lemma_sorted_views(
            out@,
            |w: Worktree| w.rank_of(),
            |w: Worktree| w@,
            |w: NamedPath| w.length,
        );
        let s = sorted_desc(out@, |w: Worktree| w.rank_of());
        assert(worktree_views(s) =~= Seq::new(s.len(), |i: int| (|w: Worktree| w@)(s[i])));
        assert(worktree_views(out@) =~= Seq::new(
            out@.len(),
            |i: int| (|w: Worktree| w@)(out@[i]),
        ));
    }
    sort_desc(out)
}

/// Whether a directory is the project directory of a worktree.
fn check_dir_of(dir: &str, name: &str) -> (r: bool)
    ensures
        r == is_dir_of(dir@, name@),
{
    if same(dir, name) {
        return true;
    }
    let cs = to_chars(name);
    if cs.len() < MAX_SANITIZED_LENGTH {
        return false;
    }
    let mut prefix = name.to_owned();
    prefix.push('-');
    starts_with(dir, &prefix)
}

/// The path of the first worktree whose project directory a directory is.
fn find_worktree(dir: &str, worktrees: &Vec<Worktree>) -> (r: Option<String>)
    ensures
        text_view(r) == worktree_of(dir@, worktree_views(worktrees@)),
{
    let ghost all = worktree_views(worktrees@);
    let mut i: usize = 0;
    proof {
        assert(all.skip(0) =~= all);
    }
    while i < worktrees.len()
        invariant
            all == worktree_views(worktrees@),
            i <= worktrees@.len(),
            worktree_of(dir@, all) == worktree_of(dir@, all.skip(i as int)),
        decreases worktrees@.len() - i,
    {
        proof {
            assert(all.skip(i as int)[0] == worktrees@[i as int]@);
            assert(all.skip(i as int).skip(1) =~= all.skip(i as int + 1));
        }
        if check_dir_of(dir, &worktrees[i].name) {
            return Some(worktrees[i].path.clone());
        }
        i = i + 1;
    }
    None
}

/// Whether the sessions of worktrees are merged into a listing: a project with
/// no worktree but its own directory is listed by itself.
pub fn merges_worktrees(worktrees: &Vec<String>) -> (r: bool)
    ensures
        r == (worktrees@.len() > 1),
{
    worktrees.len() > 1
}

/// The directories that belong to worktrees, by position and with the
/// worktree. Each name is taken once, and none that is `done` already. Where
/// the file system ignores case, so does the comparison of names.
pub fn pick_worktree_dirs(
    names: &Vec<String>,
    done: Option<&str>,
    worktrees: &Vec<String>,
    ignore_case: bool,
) -> (r: Vec<(usize, String)>)
    ensures
        pick_views(r@) == picked_dirs(
            folded_names(text_views(names@), ignore_case),
            match done {
                Some(d) => Some(folded(d@, ignore_case)),
                None => None,
            },
            ordered_worktrees(text_views(worktrees@), ignore_case),
        ).dirs,
{
    let indexed = order_worktrees(worktrees, ignore_case);
    let folded_list = fold_names(names, ignore_case);
    match done {
        Some(d) => {
            let seen = fold(d, ignore_case);
            pick_dirs(&folded_list, Some(seen.as_str()), &indexed)
        },
        None => pick_dirs(&folded_list, None, &indexed),
    }
}

/// The directories that belong to worktrees, by position and with the
/// worktree. Each name is taken once, and none that is `done` already.
fn pick_dirs(names: &Vec<String>, done: Option<&str>, indexed: &Vec<Worktree>) -> (r: Vec<
    (usize, String),
>)
    ensures
        pick_views(r@) == picked_dirs(
            text_views(names@),
            str_view(done),
            worktree_views(indexed@),
        ).dirs,
{
    let ghost ws = worktree_views(indexed@);
    let ghost all = text_views(names@);
    let mut seen: Vec<String> = Vec::new();
    match done {
        Some(d) => {
            seen.push(d.to_owned());
        },
        None => {},
    }
    let mut out: Vec<(usize, String)> = Vec::new();
    let mut i: usize = 0;
    proof {
        assert(all.take(0) =~= Seq::<Seq<char>>::empty());
        assert(pick_views(out@) =~= picked_dirs(all.take(0), str_view(done), ws).dirs);
        assert(text_views(seen@) =~= picked_dirs(all.take(0), str_view(done), ws).seen);
    }
    while i < names.len()
        invariant
            all == text_views(names@),
            ws == worktree_views(indexed@),
            i <= names@.len(),
            pick_views(out@) == picked_dirs(all.take(i as int), str_view(done), ws).dirs,
            text_views(seen@) == picked_dirs(all.take(i as int), str_view(done), ws).seen,
        decreases names@.len() - i,
    {
        let ghost were = out@;
        let ghost seen0 = seen@;
        proof {
            assert(all.take(i as int + 1).drop_last() =~= all.take(i as int));
            assert(all.take(i as int + 1).last() == names@[i as int]@);
        }
        if !list_has(&seen, &names[i]) {
            match find_worktree(&names[i], indexed) {
                Some(path) => {
                    out.push((i, path));
                    seen.push(names[i].clone());
                    proof {
                        assert(pick_views(out@) =~= pick_views(were).push((i as int, path@)));
                        assert(text_views(seen@) =~= text_views(seen0).push(names@[i as int]@));
                    }
                },
                None => {},
            }
        }
        i = i + 1;
    }
    proof {
        assert(all.take(all.len() as int) =~= all);
    }
    out
}

// ---------------------------------------------------------------------------
// Files
// ---------------------------------------------------------------------------

/// The session whose main transcript a file is by its name.
pub open spec fn session_of_file(name: Seq<char>) -> Option<Seq<char>> {
    match before_suffix(name, ".jsonl"@) {
        Some(stem) => if is_uuid(stem) {
            Some(stem)
        } else {
            None
        },
        None => None,
    }
}

/// The session whose main transcript a file is by its name.
pub fn session_file_stem(name: &str) -> (r: Option<String>)
    ensures
        text_view(r) == session_of_file(name@),
{
    match strip_suffix(name, ".jsonl") {
        Some(stem) => {
            if validate_uuid(&stem).is_some() {
                Some(stem)
            } else {
                None
            }
        },
        None => None,
    }
}

/// The subagent whose transcript a file is by its name.
pub open spec fn agent_of_file(name: Seq<char>) -> Option<Seq<char>> {
    match after_prefix(name, "agent-"@) {
        Some(rest) => before_suffix(rest, ".jsonl"@),
        None => None,
    }
}

/// The subagent whose transcript a file is by its name.
pub fn agent_file_id(name: &str) -> (r: Option<String>)
    ensures
        text_view(r) == agent_of_file(name@),
{
    match strip_prefix(name, "agent-") {
        Some(rest) => strip_suffix(&rest, ".jsonl"),
        None => None,
    }
}

/// Head and tail of a transcript by the bytes that were read of it. `tail` is
/// `None` where the head is the whole. Without any bytes there is nothing.
pub fn lite_from_reads(head: &[u8], tail: Option<&[u8]>, size: i64, mtime: i64) -> (r: Option<
    LiteSessionFile,
>)
    ensures
        match r {
            Some(lite) => head@.len() > 0 && lite.mtime == mtime && lite.size == size && lite.head@
                == lossy_text(head@) && lite.tail@ == (match tail {
                Some(t) => lossy_text(t@),
                None => lossy_text(head@),
            }),
            None => head@.len() == 0,
        },
{
    if head.len() == 0 {
        return None;
    }
    let first = decode_lossy(head);
    let last = match tail {
        Some(t) => decode_lossy(t),
        None => first.clone(),
    };
    Some(LiteSessionFile { mtime, size, head: first, tail: last })
}

// ---------------------------------------------------------------------------
// Merging
// ---------------------------------------------------------------------------

impl Ranked for SDKSessionInfo {
    open spec fn rank_of(&self) -> int {
        self.last_modified as int
    }

    fn rank(&self) -> (r: i64) {
        self.last_modified
    }
}

/// The position of the info of a session, or the number of infos where there
/// is none.
pub open spec fn info_index(infos: Seq<Info>, session_id: Seq<char>) -> int
    decreases infos.len(),
{
    if infos.len() == 0 || infos[0].session_id == session_id {
        0
    } else {
        1 + info_index(infos.skip(1), session_id)
    }
}

/// The newest info of each session, in the order in which the sessions come
/// up. Of equally old ones the first.
pub open spec fn deduplicated(infos: Seq<Info>) -> Seq<Info>
    decreases infos.len(),
{
    if infos.len() == 0 {
        infos
    } else {
        let before = deduplicated(infos.drop_last());
        let x = infos.last();
        let i = info_index(before, x.session_id);
        if i >= before.len() {
            before.push(x)
        } else if before[i].last_modified >= x.last_modified {
            before
        } else {
            before.update(i, x)
        }
    }
}

/// The infos, newest first.
pub open spec fn newest_first(infos: Seq<Info>) -> Seq<Info> {
    sorted_desc(infos, |x: Info| x.last_modified as int)
}

/// The position of the info of a session.
fn find_info(infos: &Vec<SDKSessionInfo>, session_id: &str) -> (r: usize)
    ensures
        r == info_index(info_views(infos@), session_id@),
        r <= infos@.len(),
{
    let ghost all = info_views(infos@);
    let mut i: usize = 0;
    proof {
        assert(all.skip(0) =~= all);
    }
    while i < infos.len()
        invariant
            all == info_views(infos@),
            i <= infos@.len(),
            info_index(all, session_id@) == i + info_index(all.skip(i as int), session_id@),
        decreases infos@.len() - i,
    {
        proof {
            assert(all.skip(i as int)[0] == infos@[i as int]@);
            assert(all.skip(i as int).skip(1) =~= all.skip(i as int + 1));
        }
        if same(&infos[i].session_id, session_id) {
            return i;
        }
        i = i + 1;
    }
    i
}

/// Deduplicates by session, keeping the newest `last_modified`.
pub fn deduplicate_by_session_id(sessions: Vec<SDKSessionInfo>) -> (r: Vec<SDKSessionInfo>)
    ensures
        info_views(r@) == deduplicated(info_views(sessions@)),
{
    let ghost all = info_views(sessions@);
    let mut out: Vec<SDKSessionInfo> = Vec::new();
    let mut i: usize = 0;
    proof {
        assert(all.take(0) =~= Seq::<Info>::empty());
        assert(info_views(out@) =~= Seq::<Info>::empty());
    }
    while i < sessions.len()
        invariant
            all == info_views(sessions@),
            i <= sessions@.len(),
            info_views(out@) == deduplicated(all.take(i as int)),
        decreases sessions@.len() - i,
    {
        let ghost were = out@;
        proof {
            assert(all.take(i as int + 1).drop_last() =~= all.take(i as int));
            assert(all.take(i as int + 1).last() == sessions@[i as int]@);
        }
        let n: usize = find_info(&out, &sessions[i].session_id);
        if n >= out.len() {
            let x = sessions[i].clone();
            out.push(x);
            proof {
                assert(info_views(out@) =~= info_views(were).push(x@));
            }
        } else if out[n].last_modified < sessions[i].last_modified {
            let x = sessions[i].clone();
            out.set(n, x);
            proof {
                assert(info_views(out@) =~= info_views(were).update(n as int, x@));
            }
        }
        i = i + 1;
    }
    proof {
        assert(all.take(all.len() as int) =~= all);
    }
    out
}

/// Sorts by `last_modified` descending and applies `offset` and `limit`.
pub fn apply_sort_limit_offset(
    sessions: Vec<SDKSessionInfo>,
    limit: Option<usize>,
    offset: usize,
) -> (r: Vec<SDKSessionInfo>)
    ensures
        info_views(r@) == paged(newest_first(info_views(sessions@)), limit, offset),
{
    proof {
        let s = sessions@;
        let view = |x: SDKSessionInfo| x@;
        let key = |x: SDKSessionInfo| x.rank_of();
        crate::sessions::sorting::lemma_sorted_views(
            s,
            key,
            view,
            |x: Info| x.last_modified as int,
        );
        let t = sorted_desc(s, key);
        assert(info_views(t) =~= Seq::new(t.len(), |i: int| view(t[i])));
        assert(info_views(s) =~= Seq::new(s.len(), |i: int| view(s[i])));
        assert(info_views(paged(t, limit, offset)) =~= paged(info_views(t), limit, offset));
    }
    page(sort_desc(sessions), limit, offset)
}

/// Merges the sessions that were found in several directories: the newest of
/// each, sorted by `last_modified` descending, from `offset` on and at most
/// `limit`.
pub fn merge_sessions(
    sessions: Vec<SDKSessionInfo>,
    limit: Option<usize>,
    offset: usize,
) -> (r: Vec<SDKSessionInfo>)
    ensures
        info_views(r@) == paged(
            newest_first(deduplicated(info_views(sessions@))),
            limit,
            offset,
        ),
{
    apply_sort_limit_offset(deduplicate_by_session_id(sessions), limit, offset)
}

/// The position of an info is the first of its session.
proof fn lemma_info_index(infos: Seq<Info>, session_id: Seq<char>)
    ensures
        0 <= info_index(infos, session_id) <= infos.len(),
        info_index(infos, session_id) < infos.len() ==> infos[info_index(
            infos,
            session_id,
        )].session_id == session_id,
        forall|i: int|
            0 <= i < info_index(infos, session_id) ==> (#[trigger] infos[i]).session_id
                != session_id,
    decreases infos.len(),
{
    if infos.len() > 0 && infos[0].session_id != session_id {
        let rest = infos.skip(1);
        lemma_info_index(rest, session_id);
        assert forall|i: int| 0 <= i < info_index(infos, session_id) implies (
        #[trigger] infos[i]).session_id != session_id by {
            if i > 0 {
                assert(infos[i] == rest[i - 1]);
            }
        }
        if info_index(rest, session_id) < rest.len() {
            assert(rest[info_index(rest, session_id)] == infos[info_index(infos, session_id)]);
        }
    }
}

/// Deduplication leaves every session once.
proof fn lemma_deduplicated_once(infos: Seq<Info>)
    ensures
        forall|i: int, j: int|
            0 <= i < j < deduplicated(infos).len() ==> (#[trigger] deduplicated(
                infos,
            )[i]).session_id != (#[trigger] deduplicated(infos)[j]).session_id,
    decreases infos.len(),
{
    if infos.len() > 0 {
        let init = infos.drop_last();
        lemma_deduplicated_once(init);
        let before = deduplicated(init);
        let kept = deduplicated(infos);
        lemma_info_index(before, infos.last().session_id);
        assert forall|i: int, j: int| 0 <= i < j < kept.len() implies (
        #[trigger] kept[i]).session_id != (#[trigger] kept[j]).session_id by {
            assert(kept[i].session_id == before[i].session_id);
            if j < before.len() {
                assert(kept[j].session_id == before[j].session_id);
            }
        }
    }
}

/// Deduplication adds nothing.
proof fn lemma_deduplicated_from(infos: Seq<Info>)
    ensures
        forall|i: int|
            0 <= i < deduplicated(infos).len() ==> infos.contains(
                #[trigger] deduplicated(infos)[i],
            ),
    decreases infos.len(),
{
    if infos.len() > 0 {
        let init = infos.drop_last();
        lemma_deduplicated_from(init);
        let before = deduplicated(init);
        let kept = deduplicated(infos);
        let x = infos.last();
        lemma_info_index(before, x.session_id);
        assert(infos[infos.len() - 1] == x);
        assert forall|i: int| 0 <= i < kept.len() implies infos.contains(#[trigger] kept[i]) by {
            if i < before.len() && kept[i] == before[i] {
                assert(init.contains(before[i]));
                let a = choose|a: int| 0 <= a < init.len() && init[a] == before[i];
                assert(infos[a] == before[i]);
            } else {
                assert(kept[i] == x);
            }
        }
    }
}

/// Where the info that deduplication leaves in place of one stands.
proof fn lemma_deduplicated_for(infos: Seq<Info>, i: int) -> (j: int)
    requires
        0 <= i < infos.len(),
    ensures
        0 <= j < deduplicated(infos).len(),
        deduplicated(infos)[j].session_id == infos[i].session_id,
        deduplicated(infos)[j].last_modified >= infos[i].last_modified,
    decreases infos.len(),
{
    let init = infos.drop_last();
    let before = deduplicated(init);
    let kept = deduplicated(infos);
    let x = infos.last();
    lemma_info_index(before, x.session_id);
    let n = info_index(before, x.session_id);
    if i < init.len() {
        let j = lemma_deduplicated_for(init, i);
        assert(kept[j].session_id == before[j].session_id);
        j
    } else if n < before.len() {
        n
    } else {
        before.len() as int
    }
}

/// After deduplication every session is there once, with an info that was
/// there before, and none of its infos is newer.
pub proof fn law_deduplicated(infos: Seq<Info>)
    ensures
        ({
            let kept = deduplicated(infos);
            &&& forall|i: int, j: int|
                0 <= i < j < kept.len() ==> (#[trigger] kept[i]).session_id != (
                #[trigger] kept[j]).session_id
            &&& forall|i: int| 0 <= i < kept.len() ==> infos.contains(#[trigger] kept[i])
            &&& forall|i: int|
                0 <= i < infos.len() ==> exists|j: int|
                    0 <= j < kept.len() && (#[trigger] kept[j]).session_id == (
                    #[trigger] infos[i]).session_id && kept[j].last_modified
                        >= infos[i].last_modified
        }),
{
    let kept = deduplicated(infos);
    lemma_deduplicated_once(infos);
    lemma_deduplicated_from(infos);
    assert forall|i: int| 0 <= i < infos.len() implies exists|j: int|
        0 <= j < kept.len() && (#[trigger] kept[j]).session_id == (#[trigger] infos[i]).session_id
            && kept[j].last_modified >= infos[i].last_modified by {
        let j = lemma_deduplicated_for(infos, i);
        assert(kept[j].session_id == infos[i].session_id);
    }
}

/// A listing goes from the newest session to the oldest.
pub proof fn law_listing_is_newest_first(infos: Seq<Info>)
    ensures
        forall|i: int, j: int|
            0 <= i < j < newest_first(infos).len() ==> (#[trigger] newest_first(
                infos,
            )[i]).last_modified >= (#[trigger] newest_first(infos)[j]).last_modified,
        newest_first(infos).to_multiset() == infos.to_multiset(),
{
    let key = |x: Info| x.last_modified as int;
    crate::sessions::sorting::law_sorted_desc(infos, key);
    let s = newest_first(infos);
    assert forall|i: int, j: int| 0 <= i < j < s.len() implies (#[trigger] s[i]).last_modified >= (
    #[trigger] s[j]).last_modified by {
        assert(key(s[i]) >= key(s[j]));
    }
}

/// A page of a listing with an offset and a limit is that slice of the listing
/// without them, whether the sessions were merged before or not. A limit of
/// zero is none.
pub proof fn law_page_is_a_slice_of_the_listing(
    infos: Seq<Info>,
    limit: Option<usize>,
    offset: usize,
)
    ensures
        paged(newest_first(infos), limit, offset) == sliced(
            paged(newest_first(infos), None, 0),
            limit,
            offset,
        ),
        paged(newest_first(deduplicated(infos)), limit, offset) == sliced(
            paged(newest_first(deduplicated(infos)), None, 0),
            limit,
            offset,
        ),
{
    let a = newest_first(infos);
    let b = newest_first(deduplicated(infos));
    assert(paged(a, None, 0) =~= a);
    assert(paged(b, None, 0) =~= b);
    assert(paged(a, limit, offset) =~= sliced(a, limit, offset));
    assert(paged(b, limit, offset) =~= sliced(b, limit, offset));
}

/// A list without its first `offset` items, cut to its first `limit`.
pub open spec fn sliced(all: Seq<Info>, limit: Option<usize>, offset: usize) -> Seq<Info> {
    let from = if offset < all.len() {
        offset as int
    } else {
        all.len() as int
    };
    let to = match limit {
        Some(n) => if 0 < n && from + n < all.len() {
            from + n
        } else {
            all.len() as int
        },
        None => all.len() as int,
    };
    all.subrange(from, to)
}

/// Whether no two infos have the same time.
pub open spec fn distinct_times(infos: Seq<Info>) -> bool {
    forall|i: int, j: int|
        0 <= i < j < infos.len() ==> (#[trigger] infos[i]).last_modified != (
        #[trigger] infos[j]).last_modified
}

/// What is kept of one session is kept at one position.
proof fn lemma_kept_once(infos: Seq<Info>, i: int, j: int)
    requires
        0 <= i < deduplicated(infos).len(),
        0 <= j < deduplicated(infos).len(),
        deduplicated(infos)[i].session_id == deduplicated(infos)[j].session_id,
    ensures
        i == j,
{
    lemma_deduplicated_once(infos);
    let kept = deduplicated(infos);
    if i < j {
        assert(kept[i].session_id != kept[j].session_id);
    } else if j < i {
        assert(kept[j].session_id != kept[i].session_id);
    }
}

/// Infos with the same time are the same.
proof fn lemma_same_time(infos: Seq<Info>, x: Info, y: Info)
    requires
        distinct_times(infos),
        infos.contains(x),
        infos.contains(y),
        x.last_modified == y.last_modified,
    ensures
        x == y,
{
    let a = choose|a: int| 0 <= a < infos.len() && infos[a] == x;
    let b = choose|b: int| 0 <= b < infos.len() && infos[b] == y;
    if a < b {
        assert(infos[a].last_modified != infos[b].last_modified);
    } else if b < a {
        assert(infos[b].last_modified != infos[a].last_modified);
    }
}

/// Whether no info of a session is newer than this one.
spec fn is_newest_info(infos: Seq<Info>, x: Info) -> bool {
    forall|y: Info| #[trigger]
        infos.contains(y) && y.session_id == x.session_id ==> y.last_modified <= x.last_modified
}

/// An info is kept if and only if none of its session is newer.
proof fn lemma_kept(infos: Seq<Info>, x: Info)
    requires
        distinct_times(infos),
    ensures
        deduplicated(infos).contains(x) <==> infos.contains(x) && is_newest_info(infos, x),
{
    let kept = deduplicated(infos);
    if kept.contains(x) {
        let i = choose|i: int| 0 <= i < kept.len() && kept[i] == x;
        lemma_deduplicated_from(infos);
        assert forall|y: Info| #[trigger] infos.contains(y) && y.session_id == x.session_id implies
            y.last_modified <= x.last_modified by {
            let a = choose|a: int| 0 <= a < infos.len() && infos[a] == y;
            let j = lemma_deduplicated_for(infos, a);
            lemma_kept_once(infos, i, j);
        }
    }
    if infos.contains(x) && is_newest_info(infos, x) {
        let a = choose|a: int| 0 <= a < infos.len() && infos[a] == x;
        let j = lemma_deduplicated_for(infos, a);
        lemma_deduplicated_from(infos);
        lemma_same_time(infos, x, kept[j]);
    }
}

/// Two lists with the same items, whose times go down, are the same.
proof fn lemma_same_order(a: Seq<Info>, b: Seq<Info>)
    requires
        forall|i: int, j: int|
            0 <= i < j < a.len() ==> (#[trigger] a[i]).last_modified > (
            #[trigger] a[j]).last_modified,
        forall|i: int, j: int|
            0 <= i < j < b.len() ==> (#[trigger] b[i]).last_modified > (
            #[trigger] b[j]).last_modified,
        forall|x: Info| #[trigger] a.contains(x) <==> b.contains(x),
    ensures
        a == b,
    decreases a.len(),
{
    if a.len() == 0 {
        if b.len() > 0 {
            assert(b.contains(b[0]));
            assert(a.contains(b[0]));
        }
        assert(a =~= b);
    } else {
        assert(a.contains(a[0]));
        assert(b.contains(a[0]));
        let i = choose|i: int| 0 <= i < b.len() && b[i] == a[0];
        assert(b.contains(b[0]));
        assert(a.contains(b[0]));
        let j = choose|j: int| 0 <= j < a.len() && a[j] == b[0];
        if i > 0 {
            assert(b[0].last_modified > b[i].last_modified);
            if j > 0 {
                assert(a[0].last_modified > a[j].last_modified);
            }
        }
        assert(a[0] == b[0]);
        let p = a.skip(1);
        let q = b.skip(1);
        assert forall|k: int, l: int| 0 <= k < l < p.len() implies (#[trigger] p[k]).last_modified
            > (#[trigger] p[l]).last_modified by {
            assert(a[k + 1].last_modified > a[l + 1].last_modified);
        }
        assert forall|k: int, l: int| 0 <= k < l < q.len() implies (#[trigger] q[k]).last_modified
            > (#[trigger] q[l]).last_modified by {
            assert(b[k + 1].last_modified > b[l + 1].last_modified);
        }
        assert forall|x: Info| #[trigger] p.contains(x) <==> q.contains(x) by {
            lemma_behind_first(a, x);
            lemma_behind_first(b, x);
        }
        lemma_same_order(p, q);
        assert(a =~= seq![a[0]] + p);
        assert(b =~= seq![b[0]] + q);
    }
}

/// What stands behind the first item of a list whose times go down.
proof fn lemma_behind_first(a: Seq<Info>, x: Info)
    requires
        a.len() > 0,
        forall|i: int, j: int|
            0 <= i < j < a.len() ==> (#[trigger] a[i]).last_modified > (
            #[trigger] a[j]).last_modified,
    ensures
        a.skip(1).contains(x) <==> a.contains(x) && x != a[0],
{
    let p = a.skip(1);
    if p.contains(x) {
        let k = choose|k: int| 0 <= k < p.len() && p[k] == x;
        assert(a[k + 1] == x);
        assert(a[0].last_modified > a[k + 1].last_modified);
    }
    if a.contains(x) && x != a[0] {
        let k = choose|k: int| 0 <= k < a.len() && a[k] == x;
        assert(p[k - 1] == x);
    }
}

/// The listing of merged sessions goes strictly down and holds what is kept.
proof fn lemma_listing_goes_down(infos: Seq<Info>)
    requires
        distinct_times(infos),
    ensures
        ({
            let all = newest_first(deduplicated(infos));
            &&& forall|i: int, j: int|
                0 <= i < j < all.len() ==> (#[trigger] all[i]).last_modified > (
                #[trigger] all[j]).last_modified
            &&& forall|x: Info| #[trigger]
                all.contains(x) <==> deduplicated(infos).contains(x)
        }),
{
    let kept = deduplicated(infos);
    let all = newest_first(kept);
    law_listing_is_newest_first(kept);
    kept.to_multiset_ensures();
    all.to_multiset_ensures();
    assert forall|x: Info| #[trigger] all.contains(x) <==> kept.contains(x) by {
        assert(all.to_multiset().count(x) == kept.to_multiset().count(x));
    }
    assert(kept.no_duplicates()) by {
        assert forall|i: int, j: int| 0 <= i < kept.len() && 0 <= j < kept.len() && i
            != j implies kept[i] != kept[j] by {
            if kept[i] == kept[j] {
                lemma_kept_once(infos, i, j);
            }
        }
    }
    assert(all.no_duplicates()) by {
        kept.lemma_multiset_has_no_duplicates();
        assert(all.to_multiset() == kept.to_multiset());
        all.lemma_multiset_has_no_duplicates_conv();
    }
    assert forall|i: int, j: int| 0 <= i < j < all.len() implies (#[trigger] all[i]).last_modified
        > (#[trigger] all[j]).last_modified by {
        assert(all.contains(all[i]) && all.contains(all[j]));
        assert(kept.contains(all[i]) && kept.contains(all[j]));
        lemma_kept(infos, all[i]);
        lemma_kept(infos, all[j]);
        assert(all[i] != all[j]);
        assert(all[i].last_modified >= all[j].last_modified);
        if all[i].last_modified == all[j].last_modified {
            lemma_same_time(infos, all[i], all[j]);
        }
    }
}

/// The order in which sessions are found does not matter for their listing,
/// where no two have the same time: neither for the whole of it nor for a
/// page.
pub proof fn law_listing_ignores_the_order(
    infos: Seq<Info>,
    others: Seq<Info>,
    limit: Option<usize>,
    offset: usize,
)
    requires
        infos.to_multiset() == others.to_multiset(),
        distinct_times(infos),
    ensures
        newest_first(deduplicated(infos)) == newest_first(deduplicated(others)),
        paged(newest_first(deduplicated(infos)), limit, offset) == paged(
            newest_first(deduplicated(others)),
            limit,
            offset,
        ),
{
    lemma_same_items(infos, others);
    lemma_distinct_times(infos, others);
    lemma_listing_goes_down(infos);
    lemma_listing_goes_down(others);
    let a = newest_first(deduplicated(infos));
    let b = newest_first(deduplicated(others));
    assert forall|x: Info| #[trigger] a.contains(x) <==> b.contains(x) by {
        lemma_kept(infos, x);
        lemma_kept(others, x);
    }
    lemma_same_order(a, b);
}

/// Infos in another order are the same infos.
proof fn lemma_same_items(infos: Seq<Info>, others: Seq<Info>)
    requires
        infos.to_multiset() == others.to_multiset(),
    ensures
        forall|x: Info|
            #![trigger infos.contains(x)]
            #![trigger others.contains(x)]
            infos.contains(x) <==> others.contains(x),
{
    infos.to_multiset_ensures();
    others.to_multiset_ensures();
    assert forall|x: Info|
        #![trigger infos.contains(x)]
        #![trigger others.contains(x)]
        infos.contains(x) <==> others.contains(x) by {
        let n = infos.to_multiset().count(x);
        assert(infos.contains(x) <==> n > 0);
        assert(others.contains(x) <==> n > 0);
    }
}

/// Infos in another order still have different times.
proof fn lemma_distinct_times(infos: Seq<Info>, others: Seq<Info>)
    requires
        infos.to_multiset() == others.to_multiset(),
        distinct_times(infos),
    ensures
        distinct_times(others),
{
    infos.to_multiset_ensures();
    others.to_multiset_ensures();
    assert(infos.no_duplicates()) by {
        assert forall|i: int, j: int| 0 <= i < infos.len() && 0 <= j < infos.len() && i
            != j implies infos[i] != infos[j] by {
            if i < j {
                assert(infos[i].last_modified != infos[j].last_modified);
            } else {
                assert(infos[j].last_modified != infos[i].last_modified);
            }
        }
    }
    infos.lemma_multiset_has_no_duplicates();
    others.lemma_multiset_has_no_duplicates_conv();
    assert forall|i: int, j: int| 0 <= i < j < others.len() implies (
    #[trigger] others[i]).last_modified != (#[trigger] others[j]).last_modified by {
        assert(others.contains(others[i]) && others.contains(others[j]));
        assert(infos.to_multiset().count(others[i]) > 0);
        assert(infos.to_multiset().count(others[j]) > 0);
        let a = choose|a: int| 0 <= a < infos.len() && infos[a] == others[i];
        let b = choose|b: int| 0 <= b < infos.len() && infos[b] == others[j];
        if a < b {
            assert(infos[a].last_modified != infos[b].last_modified);
        } else if b < a {
            assert(infos[b].last_modified != infos[a].last_modified);
        }
    }
}

// ---------------------------------------------------------------------------
// Where sessions are looked for
// ---------------------------------------------------------------------------

/// The directory itself is searched first, then the worktrees that are other
/// directories, in their order.
pub proof fn law_search_order(canonical: Seq<char>, a: Seq<Seq<char>>, b: Seq<Seq<char>>, w: Seq<char>)
    ensures
        search_order(canonical, a).len() > 0,
        search_order(canonical, a)[0] == canonical,
        search_order(canonical, a + b) == search_order(canonical, a) + search_order(
            canonical,
            b,
        ).skip(1),
        search_order(canonical, Seq::empty()) == seq![canonical],
        search_order(canonical, seq![w]) == if w == canonical {
            seq![canonical]
        } else {
            seq![canonical, w]
        },
{
    let keep = |x: Seq<char>| x != canonical;
    Seq::filter_distributes_over_add(a, b, keep);
    assert(search_order(canonical, a + b) =~= search_order(canonical, a) + search_order(
        canonical,
        b,
    ).skip(1));
    reveal_with_fuel(Seq::filter, 2);
    assert(seq![w].drop_last() =~= Seq::<Seq<char>>::empty());
    assert(seq![w].last() == w);
    assert(search_order(canonical, Seq::empty()) =~= seq![canonical]);
    assert(search_order(canonical, seq![w]) =~= if w == canonical {
        seq![canonical]
    } else {
        seq![canonical, w]
    });
}

/// The directory of a project has the sanitized name of its path where there
/// is one of that name. A name that was cut may end otherwise: then the first
/// directory that begins with the first 200 characters and a hyphen counts.
pub proof fn law_project_directories(project_path: Seq<char>, names: Seq<Seq<char>>, i: int)
    requires
        0 <= i <= names.len(),
        ({
            let start = sanitized(project_path).take(200).push('-');
            &&& i < names.len() ==> start.is_prefix_of(names[i])
            &&& forall|j: int| 0 <= j < i ==> !start.is_prefix_of(#[trigger] names[j])
        }),
    ensures
        project_dir_name(project_path, true, names) == Some(sanitized(project_path)),
        sanitized(project_path).len() <= 200 ==> project_dir_name(project_path, false, names) is None,
        sanitized(project_path).len() > 200 ==> project_dir_name(project_path, false, names) == if i
            < names.len() {
            Some(names[i])
        } else {
            None
        },
{
    lemma_first_with_prefix(names, sanitized(project_path).take(200).push('-'), i);
}

/// The first name with a prefix.
proof fn lemma_first_with_prefix(names: Seq<Seq<char>>, p: Seq<char>, i: int)
    requires
        0 <= i <= names.len(),
        i < names.len() ==> p.is_prefix_of(names[i]),
        forall|j: int| 0 <= j < i ==> !p.is_prefix_of(#[trigger] names[j]),
    ensures
        first_with_prefix(names, p) == if i < names.len() {
            Some(names[i])
        } else {
            None
        },
    decreases names.len(),
{
    if i > 0 {
        assert(!p.is_prefix_of(names[0]));
        let rest = names.skip(1);
        assert(forall|j: int| 0 <= j < rest.len() ==> #[trigger] rest[j] == names[j + 1]);
        lemma_first_with_prefix(rest, p, i - 1);
    }
}

/// Worktrees are read line by line, in order: a line that begins with
/// `worktree` and a space names one, in its composed form, and no other does.
pub proof fn law_worktree_lines(a: Seq<Seq<char>>, b: Seq<Seq<char>>, path: Seq<char>, line: Seq<char>)
    ensures
        worktrees_in(a + b) == worktrees_in(a) + worktrees_in(b),
        worktrees_in(seq!["worktree "@ + path]) == seq![nfc_text(path)],
        !"worktree "@.is_prefix_of(line) ==> worktrees_in(seq![line]).len() == 0,
    decreases b.len(),
{
    let none = Seq::<Seq<char>>::empty();
    let named = "worktree "@ + path;
    assert(named.skip("worktree "@.len() as int) =~= path);
    assert("worktree "@.is_prefix_of(named));
    assert(seq![named].drop_last() =~= none);
    assert(seq![named].last() == named);
    assert(worktrees_in(seq![named].drop_last()) =~= none);
    assert(none.push(nfc_text(path)) =~= seq![nfc_text(path)]);
    assert(seq![line].drop_last() =~= none);
    assert(seq![line].last() == line);
    if b.len() > 0 {
        law_worktree_lines(a, b.drop_last(), path, line);
        assert((a + b).drop_last() =~= a + b.drop_last());
        assert((a + b).last() == b.last());
        assert(worktrees_in(a + b) =~= worktrees_in(a) + worktrees_in(b));
    } else {
        assert(a + b =~= a);
        assert(worktrees_in(a) + worktrees_in(b) =~= worktrees_in(a));
    }
}

/// A directory belongs to the first worktree of that name; where a name has
/// 200 characters or more, also to one whose name and a hyphen it begins with.
pub proof fn law_worktree_of_a_directory(dir: Seq<char>, worktrees: Seq<NamedPath>, i: int)
    requires
        0 <= i <= worktrees.len(),
        ({
            let fits = |w: NamedPath|
                dir == w.name || w.name.len() >= 200 && (w.name + seq!['-']).is_prefix_of(dir);
            &&& i < worktrees.len() ==> fits(worktrees[i])
            &&& forall|j: int| 0 <= j < i ==> !fits(#[trigger] worktrees[j])
        }),
    ensures
        worktree_of(dir, worktrees) == if i < worktrees.len() {
            Some(worktrees[i].path)
        } else {
            None
        },
    decreases worktrees.len(),
{
    if worktrees.len() > 0 {
        let name = worktrees[0].name;
        assert(name + seq!['-'] =~= name.push('-'));
        if i > 0 {
            let w = worktrees[0];
            assert(!(dir == w.name || w.name.len() >= 200 && (w.name + seq!['-']).is_prefix_of(
                dir,
            )));
            let rest = worktrees.skip(1);
            assert(forall|j: int| 0 <= j < rest.len() ==> #[trigger] rest[j] == worktrees[j + 1]);
            law_worktree_of_a_directory(dir, rest, i - 1);
        }
    }
}

/// Worktrees with longer names come before those with shorter ones, so that
/// the one that fits best is found first. None is lost.
pub proof fn law_longest_names_come_first(paths: Seq<Seq<char>>, ignore_case: bool)
    ensures
        ({
            let ws = ordered_worktrees(paths, ignore_case);
            &&& ws.len() == paths.len()
            &&& forall|i: int, j: int|
                0 <= i < j < ws.len() ==> sanitized((#[trigger] ws[i]).path).len() >= sanitized(
                    (#[trigger] ws[j]).path,
                ).len()
            &&& forall|i: int|
                0 <= i < ws.len() ==> (#[trigger] ws[i]).name == if ignore_case {
                    lower_text(sanitized(ws[i].path))
                } else {
                    sanitized(ws[i].path)
                }
            &&& forall|i: int|
                0 <= i < paths.len() ==> exists|j: int|
                    0 <= j < ws.len() && (#[trigger] ws[j]).path == #[trigger] paths[i]
        }),
{
    let key = |w: NamedPath| w.length;
    let named = named_worktrees(paths, ignore_case);
    let ws = ordered_worktrees(paths, ignore_case);
    crate::sessions::sorting::law_sorted_desc(named, key);
    ws.to_multiset_ensures();
    named.to_multiset_ensures();
    assert forall|i: int| 0 <= i < ws.len() implies ((#[trigger] ws[i]).name == if ignore_case {
        lower_text(sanitized(ws[i].path))
    } else {
        sanitized(ws[i].path)
    }) && ws[i].length == sanitized(ws[i].path).len() by {
        assert(ws.contains(ws[i]));
        assert(ws.to_multiset().count(ws[i]) > 0);
        assert(named.contains(ws[i]));
        let j = choose|j: int| 0 <= j < named.len() && named[j] == ws[i];
        assert(named[j].path == paths[j]);
    }
    assert forall|i: int, j: int| 0 <= i < j < ws.len() implies sanitized(
        (#[trigger] ws[i]).path,
    ).len() >= sanitized((#[trigger] ws[j]).path).len() by {
        assert(key(ws[i]) >= key(ws[j]));
        assert(ws[i].length == sanitized(ws[i].path).len());
        assert(ws[j].length == sanitized(ws[j].path).len());
    }
    assert forall|i: int| 0 <= i < paths.len() implies exists|j: int|
        0 <= j < ws.len() && (#[trigger] ws[j]).path == #[trigger] paths[i] by {
        assert(named[i].path == paths[i]);
        assert(named.contains(named[i]));
        assert(named.to_multiset().count(named[i]) > 0);
        assert(ws.contains(named[i]));
        let j = choose|j: int| 0 <= j < ws.len() && ws[j] == named[i];
        assert(ws[j].path == paths[i]);
    }
}

/// The directories that are picked for worktrees stand in the order of their
/// listing, each name once, with the worktree that it belongs to. The one that
/// was searched already is not picked again, and every other one that belongs
/// to a worktree is.
pub proof fn law_picked_directories(
    names: Seq<Seq<char>>,
    done: Option<Seq<char>>,
    worktrees: Seq<NamedPath>,
)
    ensures
        ({
            let dirs = picked_dirs(names, done, worktrees).dirs;
            &&& forall|i: int|
                0 <= i < dirs.len() ==> 0 <= (#[trigger] dirs[i]).0 < names.len() && worktree_of(
                    names[dirs[i].0],
                    worktrees,
                ) == Some(dirs[i].1) && Some(names[dirs[i].0]) != done
            &&& forall|i: int, j: int|
                0 <= i < j < dirs.len() ==> (#[trigger] dirs[i]).0 < (#[trigger] dirs[j]).0
                    && names[dirs[i].0] != names[dirs[j].0]
            &&& forall|n: int|
                0 <= n < names.len() && worktree_of(#[trigger] names[n], worktrees) is Some && Some(
                    names[n],
                ) != done ==> exists|i: int|
                    0 <= i < dirs.len() && names[(#[trigger] dirs[i]).0] == names[n]
        }),
{
    lemma_picked(names, done, worktrees);
}

/// What was picked, and what was seen.
proof fn lemma_picked(names: Seq<Seq<char>>, done: Option<Seq<char>>, worktrees: Seq<NamedPath>)
    ensures
        ({
            let p = picked_dirs(names, done, worktrees);
            let dirs = p.dirs;
            &&& forall|x: Seq<char>| #[trigger]
                p.seen.contains(x) <==> done == Some(x) || exists|i: int|
                    0 <= i < dirs.len() && names[(#[trigger] dirs[i]).0] == x
            &&& forall|i: int|
                0 <= i < dirs.len() ==> 0 <= (#[trigger] dirs[i]).0 < names.len() && worktree_of(
                    names[dirs[i].0],
                    worktrees,
                ) == Some(dirs[i].1) && Some(names[dirs[i].0]) != done
            &&& forall|i: int, j: int|
                0 <= i < j < dirs.len() ==> (#[trigger] dirs[i]).0 < (#[trigger] dirs[j]).0
                    && names[dirs[i].0] != names[dirs[j].0]
            &&& forall|n: int|
                0 <= n < names.len() && worktree_of(#[trigger] names[n], worktrees) is Some && Some(
                    names[n],
                ) != done ==> exists|i: int|
                    0 <= i < dirs.len() && names[(#[trigger] dirs[i]).0] == names[n]
        }),
    decreases names.len(),
{
    let p = picked_dirs(names, done, worktrees);
    if names.len() == 0 {
        if let Some(d) = done {
            assert(p.seen[0] == d);
        }
    } else {
        let init = names.drop_last();
        let n = names.len() - 1;
        lemma_picked(init, done, worktrees);
        let q = picked_dirs(init, done, worktrees);
        let name = names.last();
        assert(name == names[n]);
        assert(forall|i: int| 0 <= i < n ==> #[trigger] init[i] == names[i]);
        assert forall|i: int| 0 <= i < q.dirs.len() implies init[(#[trigger] q.dirs[i]).0]
            == names[q.dirs[i].0] by {}
        let added = !q.seen.contains(name) && worktree_of(name, worktrees) is Some;
        if added {
            let path = worktree_of(name, worktrees)->0;
            assert(p.dirs == q.dirs.push((n, path)));
            assert(p.seen == q.seen.push(name));
            assert(p.dirs[q.dirs.len() as int] == (n, path));
            assert(p.seen[q.seen.len() as int] == name);
            assert(forall|i: int| 0 <= i < q.dirs.len() ==> #[trigger] p.dirs[i] == q.dirs[i]);
        } else {
            assert(p == q);
        }
        assert forall|x: Seq<char>| #[trigger] p.seen.contains(x) <==> done == Some(x) || exists|
            i: int,
        |
            0 <= i < p.dirs.len() && names[(#[trigger] p.dirs[i]).0] == x by {
            if p.seen.contains(x) {
                let k = choose|k: int| 0 <= k < p.seen.len() && p.seen[k] == x;
                if k < q.seen.len() {
                    assert(q.seen[k] == x);
                    assert(q.seen.contains(x));
                    if done != Some(x) {
                        let i = choose|i: int|
                            0 <= i < q.dirs.len() && init[(#[trigger] q.dirs[i]).0] == x;
                        assert(p.dirs[i] == q.dirs[i]);
                    }
                } else {
                    assert(names[p.dirs[q.dirs.len() as int].0] == x);
                }
            }
            if done == Some(x) {
                assert(q.seen.contains(x));
                let k = choose|k: int| 0 <= k < q.seen.len() && q.seen[k] == x;
                assert(p.seen[k] == x);
            } else if exists|i: int| 0 <= i < p.dirs.len() && names[(#[trigger] p.dirs[i]).0] == x {
                let i = choose|i: int| 0 <= i < p.dirs.len() && names[(#[trigger] p.dirs[i]).0]
                    == x;
                if i < q.dirs.len() {
                    assert(init[q.dirs[i].0] == x);
                    assert(q.seen.contains(x));
                    let k = choose|k: int| 0 <= k < q.seen.len() && q.seen[k] == x;
                    assert(p.seen[k] == x);
                } else {
                    assert(p.seen[q.seen.len() as int] == x);
                }
            }
        }
        assert forall|i: int, j: int| 0 <= i < j < p.dirs.len() implies (#[trigger] p.dirs[i]).0 < (
        #[trigger] p.dirs[j]).0 && names[p.dirs[i].0] != names[p.dirs[j].0] by {
            assert(p.dirs[i] == q.dirs[i]);
            if j < q.dirs.len() {
                assert(p.dirs[j] == q.dirs[j]);
            } else {
                assert(init[q.dirs[i].0] == names[q.dirs[i].0]);
                if names[q.dirs[i].0] == name {
                    assert(q.seen.contains(name));
                }
            }
        }
        assert forall|m: int|
            0 <= m < names.len() && worktree_of(#[trigger] names[m], worktrees) is Some && Some(
                names[m],
            ) != done implies exists|i: int|
            0 <= i < p.dirs.len() && names[(#[trigger] p.dirs[i]).0] == names[m] by {
            if m < n {
                assert(init[m] == names[m]);
                let i = choose|i: int|
                    0 <= i < q.dirs.len() && init[(#[trigger] q.dirs[i]).0] == init[m];
                assert(p.dirs[i] == q.dirs[i]);
            } else if added {
                assert(names[p.dirs[q.dirs.len() as int].0] == names[m]);
            } else {
                assert(q.seen.contains(name));
                let i = choose|i: int|
                    0 <= i < q.dirs.len() && init[(#[trigger] q.dirs[i]).0] == name;
                assert(names[p.dirs[i].0] == names[m]);
            }
        }
    }
}

/// A file is that of a session where its name is a UUID and `.jsonl`, and that
/// of a subagent where its name is `agent-`, the subagent's and `.jsonl`.
pub proof fn law_names_of_files(stem: Seq<char>, name: Seq<char>)
    ensures
        is_uuid(stem) ==> session_of_file(stem + ".jsonl"@) == Some(stem),
        !is_uuid(stem) ==> session_of_file(stem + ".jsonl"@) is None,
        !".jsonl"@.is_suffix_of(name) ==> session_of_file(name) is None,
        agent_of_file("agent-"@ + stem + ".jsonl"@) == Some(stem),
        !"agent-"@.is_prefix_of(name) ==> agent_of_file(name) is None,
        !".jsonl"@.is_suffix_of(name) ==> agent_of_file("agent-"@ + name) is None,
{
    let end = ".jsonl"@;
    let mark = "agent-"@;
    let s = stem + end;
    assert(end.is_suffix_of(s)) by {
        assert(s.subrange(s.len() - end.len(), s.len() as int) =~= end);
    }
    assert(s.take(s.len() - end.len()) =~= stem);
    let t = mark + stem + end;
    assert(mark.is_prefix_of(t));
    assert(t.skip(mark.len() as int) =~= s);
    let u = mark + name;
    assert(mark.is_prefix_of(u));
    assert(u.skip(mark.len() as int) =~= name);
}

/// The configuration directory is the named one where its name is not empty,
/// and else a hidden one in the home directory.
pub proof fn law_configuration_directory(
    config: Seq<char>,
    home: Seq<char>,
    program: Seq<char>,
    other: Option<Seq<char>>,
)
    ensures
        config.len() > 0 ==> config_dir(Some(config), other, program) == config,
        config.len() == 0 ==> config_dir(Some(config), other, program) == config_dir(
            None,
            other,
            program,
        ),
        config_dir(None, Some(home), program) == joined_path(home, "."@ + program),
        config_dir(None, None, program) == joined_path("."@, "."@ + program),
        home.len() > 0 ==> first_nonempty(Some(home), other) == Some(home),
        first_nonempty(None, other) == nonempty_view(other),
        first_nonempty(Some(Seq::empty()), other) == nonempty_view(other),
{
}

/// Where case is ignored, names are compared by their small letters, and else
/// as they are.
pub proof fn law_folded_names(names: Seq<Seq<char>>, i: int)
    requires
        0 <= i < names.len(),
    ensures
        folded_names(names, false) == names,
        folded_names(names, true).len() == names.len(),
        folded_names(names, true)[i] == lower_text(names[i]),
{
    assert(folded_names(names, false) =~= names);
}

/// Where an info that deduplication leaves comes from: it is the first of the
/// newest ones of its session.
proof fn lemma_deduplicated_first(infos: Seq<Info>, j: int) -> (i: int)
    requires
        0 <= j < deduplicated(infos).len(),
    ensures
        0 <= i < infos.len(),
        deduplicated(infos)[j] == infos[i],
        forall|k: int|
            0 <= k < i && (#[trigger] infos[k]).session_id == infos[i].session_id
                ==> infos[k].last_modified < infos[i].last_modified,
    decreases infos.len(),
{
    let init = infos.drop_last();
    let before = deduplicated(init);
    let x = infos.last();
    let n = info_index(before, x.session_id);
    lemma_info_index(before, x.session_id);
    let here = infos.len() - 1;
    if j < before.len() && deduplicated(infos)[j] == before[j] {
        let i = lemma_deduplicated_first(init, j);
        assert forall|k: int|
            0 <= k < i && (#[trigger] infos[k]).session_id == infos[i].session_id implies
            infos[k].last_modified < infos[i].last_modified by {
            assert(init[k] == infos[k]);
        }
        i
    } else {
        assert(deduplicated(infos)[j] == x);
        lemma_deduplicated_once(init);
        assert forall|k: int|
            0 <= k < here && (#[trigger] infos[k]).session_id == x.session_id implies
            infos[k].last_modified < x.last_modified by {
            assert(init[k] == infos[k]);
            let m = lemma_deduplicated_for(init, k);
            assert(before[m].session_id == x.session_id);
            assert(n < before.len());
            assert(before[n].session_id == before[m].session_id);
            assert(n == m);
        }
        here
    }
}

/// Of several infos of a session the newest stays, and of equally new ones the
/// first: every other that came before it is older.
pub proof fn law_first_of_the_newest_stays(infos: Seq<Info>, j: int)
    requires
        0 <= j < deduplicated(infos).len(),
    ensures
        exists|i: int|
            {
                &&& 0 <= i < infos.len()
                &&& #[trigger] infos[i] == deduplicated(infos)[j]
                &&& forall|k: int|
                    0 <= k < infos.len() && (#[trigger] infos[k]).session_id
                        == infos[i].session_id ==> infos[k].last_modified
                        <= infos[i].last_modified && (k < i ==> infos[k].last_modified
                        < infos[i].last_modified)
            },
{
    let i = lemma_deduplicated_first(infos, j);
    lemma_deduplicated_once(infos);
    assert forall|k: int|
        0 <= k < infos.len() && (#[trigger] infos[k]).session_id == infos[i].session_id implies
        infos[k].last_modified <= infos[i].last_modified && (k < i ==> infos[k].last_modified
            < infos[i].last_modified) by {
        let m = lemma_deduplicated_for(infos, k);
        assert(deduplicated(infos)[m].session_id == deduplicated(infos)[j].session_id);
        assert(m == j);
    }
    assert(infos[i] == deduplicated(infos)[j]);
}

} // verus!
