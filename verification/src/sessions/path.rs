//! Paths as texts.
//!
//! A path is a text whose components are separated by `/`, as on POSIX systems;
//! what Windows paths add stands in [`windows`](crate::sessions::windows). Only
//! [`lexical_realpath`] needs to know of a current directory, and it is told.
use vstd::prelude::*;

use crate::text::{
    from_range, join, joined, same, split, split_on, text_view, text_views, to_chars,
};

verus! {

broadcast use vstd::string::group_string_axioms;

/// What a component of a path is.
pub ghost enum Part {
    /// The root directory, at the start of an absolute path.
    Root,
    /// A `.` at the start of a relative path.
    Current,
    /// A `..`.
    Parent,
    /// Any other name.
    Name(Seq<char>),
}

/// A component of a path.
#[derive(Debug)]
pub enum PathPart {
    /// The root directory, at the start of an absolute path.
    Root,
    /// A `.` at the start of a relative path.
    Current,
    /// A `..`.
    Parent,
    /// Any other name.
    Name(String),
}

impl View for PathPart {
    type V = Part;

    open spec fn view(&self) -> Part {
        match self {
            PathPart::Root => Part::Root,
            PathPart::Current => Part::Current,
            PathPart::Parent => Part::Parent,
            PathPart::Name(n) => Part::Name(n@),
        }
    }
}

/// The components by what they are.
pub open spec fn part_views(v: Seq<PathPart>) -> Seq<Part> {
    Seq::new(v.len(), |i: int| v[i]@)
}

/// The components that the pieces between the slashes stand for. Empty pieces
/// stand for nothing, and neither does a `.` that is not the first piece.
pub open spec fn piece_parts(pieces: Seq<Seq<char>>) -> Seq<Part>
    decreases pieces.len(),
{
    if pieces.len() == 0 {
        Seq::empty()
    } else {
        let before = piece_parts(pieces.drop_last());
        let piece = pieces.last();
        if piece.len() == 0 {
            before
        } else if piece == seq!['.'] {
            if pieces.len() == 1 {
                before.push(Part::Current)
            } else {
                before
            }
        } else if piece == seq!['.', '.'] {
            before.push(Part::Parent)
        } else {
            before.push(Part::Name(piece))
        }
    }
}

/// Whether a path begins at the root directory.
pub open spec fn is_absolute_path(path: Seq<char>) -> bool {
    path.len() > 0 && path[0] == '/'
}

/// The components of a path.
pub open spec fn path_parts(path: Seq<char>) -> Seq<Part> {
    (if is_absolute_path(path) {
        seq![Part::Root]
    } else {
        Seq::empty()
    }) + piece_parts(split_on(path, '/'))
}

/// Whether a path begins at the root directory.
pub fn is_absolute(path: &str) -> (r: bool)
    ensures
        r == is_absolute_path(path@),
{
    let cs = crate::text::to_chars(path);
    cs.len() > 0 && cs[0] == '/'
}

/// The components of a path.
pub fn components(path: &str) -> (r: Vec<PathPart>)
    ensures
        part_views(r@) == path_parts(path@),
{
    let pieces = split(path, '/');
    let ghost all = split_on(path@, '/');
    let mut r: Vec<PathPart> = Vec::new();
    if is_absolute(path) {
        r.push(PathPart::Root);
    }
    let ghost root = part_views(r@);
    proof {
        assert(root =~= if is_absolute_path(path@) {
            seq![Part::Root]
        } else {
            Seq::empty()
        });
        assert(all.take(0) =~= Seq::<Seq<char>>::empty());
        assert(part_views(r@) =~= root + piece_parts(all.take(0)));
    }
    let mut i: usize = 0;
    while i < pieces.len()
        invariant
            i <= pieces@.len(),
            all == text_views(pieces@),
            part_views(r@) == root + piece_parts(all.take(i as int)),
        decreases pieces@.len() - i,
    {
        let cs = crate::text::to_chars(&pieces[i]);
        let ghost piece = pieces@[i as int]@;
        let ghost were = r@;
        proof {
            assert(all.take(i as int + 1).drop_last() =~= all.take(i as int));
            assert(all.take(i as int + 1).last() == piece);
            assert(piece == seq!['.'] <==> (piece.len() == 1 && piece[0] == '.')) by {
                if piece.len() == 1 && piece[0] == '.' {
                    assert(piece =~= seq!['.']);
                }
            }
            assert(piece == seq!['.', '.'] <==> (piece.len() == 2 && piece[0] == '.' && piece[1]
                == '.')) by {
                if piece.len() == 2 && piece[0] == '.' && piece[1] == '.' {
                    assert(piece =~= seq!['.', '.']);
                }
            }
        }
        if cs.len() == 0 {
        } else if cs.len() == 1 && cs[0] == '.' {
            if i == 0 {
                r.push(PathPart::Current);
                proof {
                    assert(part_views(r@) =~= part_views(were).push(Part::Current));
                }
            }
        } else if cs.len() == 2 && cs[0] == '.' && cs[1] == '.' {
            r.push(PathPart::Parent);
            proof {
                assert(part_views(r@) =~= part_views(were).push(Part::Parent));
            }
        } else {
            r.push(PathPart::Name(pieces[i].clone()));
            proof {
                assert(part_views(r@) =~= part_views(were).push(Part::Name(piece)));
            }
        }
        i = i + 1;
        proof {
            assert(part_views(r@) =~= root + piece_parts(all.take(i as int)));
        }
    }
    proof {
        assert(all.take(all.len() as int) =~= all);
    }
    r
}

// ---------------------------------------------------------------------------
// Lexical resolution
// ---------------------------------------------------------------------------

/// Where one component leads from the directory with the names `from`.
pub open spec fn entered(from: Seq<Seq<char>>, part: Part) -> Seq<Seq<char>> {
    match part {
        Part::Root => Seq::empty(),
        Part::Current => from,
        Part::Parent => if from.len() == 0 {
            from
        } else {
            from.drop_last()
        },
        Part::Name(n) => from.push(n),
    }
}

/// Where the components lead, one after the other, from the directory with
/// the names `from`.
pub open spec fn resolved(from: Seq<Seq<char>>, parts: Seq<Part>) -> Seq<Seq<char>>
    decreases parts.len(),
{
    if parts.len() == 0 {
        from
    } else {
        entered(resolved(from, parts.drop_last()), parts.last())
    }
}

/// The absolute path of the directory with these names.
pub open spec fn absolute_text(names: Seq<Seq<char>>) -> Seq<char> {
    seq!['/'] + joined(names, seq!['/'])
}

/// The absolute path to which `dir` leads from the directory `cwd`, without
/// a look at the file system.
pub open spec fn real_path(dir: Seq<char>, cwd: Seq<char>) -> Seq<char> {
    absolute_text(resolved(resolved(Seq::empty(), path_parts(cwd)), path_parts(dir)))
}

/// Follows the components from the directory with the names `from`.
fn resolve(from: Vec<String>, parts: &Vec<PathPart>) -> (r: Vec<String>)
    ensures
        text_views(r@) == resolved(text_views(from@), part_views(parts@)),
{
    let mut names = from;
    let ghost start = text_views(from@);
    let ghost all = part_views(parts@);
    let mut i: usize = 0;
    proof {
        assert(all.take(0) =~= Seq::<Part>::empty());
    }
    while i < parts.len()
        invariant
            i <= parts@.len(),
            all == part_views(parts@),
            text_views(names@) == resolved(start, all.take(i as int)),
        decreases parts@.len() - i,
    {
        let ghost were = names@;
        proof {
            assert(all.take(i as int + 1).drop_last() =~= all.take(i as int));
            assert(all.take(i as int + 1).last() == parts@[i as int]@);
        }
        match &parts[i] {
            PathPart::Root => {
                names = Vec::new();
                proof {
                    assert(text_views(names@) =~= Seq::<Seq<char>>::empty());
                }
            },
            PathPart::Current => {},
            PathPart::Parent => {
                if names.len() > 0 {
                    let _ = names.pop();
                    proof {
                        assert(text_views(names@) =~= text_views(were).drop_last());
                    }
                }
            },
            PathPart::Name(n) => {
                names.push(n.clone());
                proof {
                    assert(text_views(names@) =~= text_views(were).push(n@));
                }
            },
        }
        i = i + 1;
    }
    proof {
        assert(all.take(all.len() as int) =~= all);
    }
    names
}

/// The absolute path to which `dir` leads from the directory `cwd`: `.` and
/// `..` are collapsed without a look at the file system.
pub fn lexical_realpath(dir: &str, cwd: &str) -> (r: String)
    ensures
        r@ == real_path(dir@, cwd@),
{
    let root: Vec<String> = Vec::new();
    proof {
        assert(text_views(root@) =~= Seq::<Seq<char>>::empty());
    }
    let from = resolve(root, &components(cwd));
    let names = resolve(from, &components(dir));
    let mut r = String::new();
    r.push('/');
    proof {
        reveal_strlit("/");
        assert("/"@ =~= seq!['/']);
        assert(r@ =~= seq!['/']);
    }
    let tail = join(&names, "/");
    crate::text::push_text(&mut r, &tail);
    r
}

// ---------------------------------------------------------------------------
// Containment
// ---------------------------------------------------------------------------

/// Whether `path` is `root` or lies below it, component by component.
pub open spec fn is_under(path: Seq<char>, root: Seq<char>) -> bool {
    path_parts(root).is_prefix_of(path_parts(path))
}

/// Whether two components are the same.
fn same_part(a: &PathPart, b: &PathPart) -> (r: bool)
    ensures
        r == (a@ == b@),
{
    match (a, b) {
        (PathPart::Root, PathPart::Root) => true,
        (PathPart::Current, PathPart::Current) => true,
        (PathPart::Parent, PathPart::Parent) => true,
        (PathPart::Name(x), PathPart::Name(y)) => crate::text::same(x, y),
        _ => false,
    }
}

/// The components of `path` below `root`, where it lies there.
pub open spec fn below(path: Seq<char>, root: Seq<char>) -> Option<Seq<Part>> {
    if is_under(path, root) {
        Some(path_parts(path).skip(path_parts(root).len() as int))
    } else {
        None
    }
}

/// The components of `path` below `root`, or `None` where it does not lie
/// there.
pub fn strip_root(path: &str, root: &str) -> (r: Option<Vec<PathPart>>)
    ensures
        match r {
            Some(v) => below(path@, root@) == Some(part_views(v@)),
            None => below(path@, root@) is None,
        },
{
    let mut p = components(path);
    let q = components(root);
    let ghost a = path_parts(path@);
    let ghost b = path_parts(root@);
    if q.len() > p.len() {
        return None;
    }
    let mut i: usize = 0;
    while i < q.len()
        invariant
            part_views(p@) == a,
            part_views(q@) == b,
            a == path_parts(path@),
            b == path_parts(root@),
            q@.len() <= p@.len(),
            i <= q@.len(),
            forall|j: int| 0 <= j < i ==> a[j] == b[j],
        decreases q@.len() - i,
    {
        if !same_part(&p[i], &q[i]) {
            proof {
                assert(a[i as int] == p@[i as int]@);
                assert(b[i as int] == q@[i as int]@);
                if b.is_prefix_of(a) {
                    assert(a.subrange(0, b.len() as int)[i as int] == b[i as int]);
                }
            }
            return None;
        }
        proof {
            assert(a[i as int] == p@[i as int]@);
            assert(b[i as int] == q@[i as int]@);
        }
        i = i + 1;
    }
    proof {
        assert(a.subrange(0, b.len() as int) =~= b);
    }
    let ghost whole = p@;
    let rest = p.split_off(q.len());
    proof {
        assert(part_views(rest@) =~= a.skip(b.len() as int)) by {
            assert(rest@ =~= whole.skip(q@.len() as int));
        }
    }
    Some(rest)
}

/// Whether `path` is `root` or lies below it.
pub fn is_within(path: &str, root: &str) -> (r: bool)
    ensures
        r == is_under(path@, root@),
{
    strip_root(path, root).is_some()
}

// ---------------------------------------------------------------------------
// Joining
// ---------------------------------------------------------------------------

/// The path of `name` in the directory `dir`. An absolute `name` is itself.
pub open spec fn joined_path(dir: Seq<char>, name: Seq<char>) -> Seq<char> {
    if is_absolute_path(name) || dir.len() == 0 {
        name
    } else if dir.last() == '/' {
        dir + name
    } else {
        dir + seq!['/'] + name
    }
}

/// The path of `name` in the directory `dir`. An absolute `name` is itself.
pub fn join_path(dir: &str, name: &str) -> (r: String)
    ensures
        r@ == joined_path(dir@, name@),
{
    let cs = crate::text::to_chars(dir);
    if is_absolute(name) || cs.len() == 0 {
        return name.to_owned();
    }
    if cs[cs.len() - 1] == '/' {
        return crate::text::concat(dir, name);
    }
    proof {
        reveal_strlit("/");
        assert("/"@ =~= seq!['/']);
    }
    crate::text::concat3(dir, "/", name)
}

/// Whether a text can be the name of a file.
pub open spec fn is_file_name(s: Seq<char>) -> bool {
    s.len() > 0 && !s.contains('/') && s != seq!['.'] && s != seq!['.', '.']
}


/// A path without the separators, and the parts that stand for the directory
/// itself, at its end.
pub open spec fn trimmed_path(s: Seq<char>) -> Seq<char>
    decreases s.len(),
{
    if s.len() > 1 && (s.last() == '/' || (s.last() == '.' && s[s.len() - 2] == '/')) {
        trimmed_path(s.drop_last())
    } else {
        s
    }
}

/// The file that a path names.
pub open spec fn file_name_of(path: Seq<char>) -> Option<Seq<char>> {
    let name = split_on(trimmed_path(path), '/').last();
    if is_file_name(name) {
        Some(name)
    } else {
        None
    }
}

/// A path with another file name: in the place of the one that it has, or
/// behind a path that names no file.
pub open spec fn with_name(path: Seq<char>, name: Seq<char>) -> Seq<char> {
    let p = trimmed_path(path);
    match file_name_of(path) {
        Some(n) => joined_path(trimmed_path(p.take(p.len() - n.len())), name),
        None => joined_path(path, name),
    }
}

/// A path without the separators, and the parts that stand for the directory
/// itself, at its end.
fn trim_path(s: &str) -> (r: String)
    ensures
        r@ == trimmed_path(s@),
{
    let cs = to_chars(s);
    let mut n: usize = cs.len();
    proof {
        assert(s@.take(n as int) =~= s@);
    }
    while n > 1 && (cs[n - 1] == '/' || (cs[n - 1] == '.' && cs[n - 2] == '/'))
        invariant
            cs@ == s@,
            n <= cs@.len(),
            trimmed_path(s@) == trimmed_path(s@.take(n as int)),
        decreases n,
    {
        proof {
            assert(s@.take(n as int).drop_last() =~= s@.take(n as int - 1));
        }
        n = n - 1;
    }
    from_range(&cs, 0, n)
}

/// The last piece of a text is its end, and holds no separator.
proof fn lemma_last_piece(s: Seq<char>)
    ensures
        split_on(s, '/').last().len() <= s.len(),
        !split_on(s, '/').last().contains('/'),
        s.skip(s.len() - split_on(s, '/').last().len()) == split_on(s, '/').last(),
    decreases s.len(),
{
    if s.len() > 0 {
        lemma_last_piece(s.drop_last());
        let before = split_on(s.drop_last(), '/').last();
        let now = split_on(s, '/').last();
        crate::text::law_join_undoes_split(s, '/');
        if s.last() == '/' {
            assert(now =~= Seq::<char>::empty());
            assert(s.skip(s.len() as int) =~= now);
        } else {
            assert(now == before.push(s.last()));
            assert(s.skip(s.len() - now.len()) =~= s.drop_last().skip(
                s.len() - 1 - before.len(),
            ).push(s.last()));
        }
    } else {
        assert(split_on(s, '/').last() =~= Seq::<char>::empty());
        assert(s.skip(0) =~= s);
    }
}

/// The file that a path names.
pub fn file_name(path: &str) -> (r: Option<String>)
    ensures
        text_view(r) == file_name_of(path@),
{
    let p = trim_path(path);
    let pieces = split(&p, '/');
    proof {
        crate::text::law_join_undoes_split(p@, '/');
        assert(text_views(pieces@).last() == pieces@.last()@);
        lemma_last_piece(p@);
        reveal_strlit(".");
        reveal_strlit("..");
        assert("."@ =~= seq!['.']);
        assert(".."@ =~= seq!['.', '.']);
    }
    let name = pieces[pieces.len() - 1].clone();
    if name.as_str().is_empty() || same(&name, ".") || same(&name, "..") {
        None
    } else {
        Some(name)
    }
}

/// A path with another file name.
pub fn with_file_name(path: &str, name: &str) -> (r: String)
    ensures
        r@ == with_name(path@, name@),
{
    match file_name(path) {
        Some(n) => {
            let p = trim_path(path);
            proof {
                lemma_last_piece(p@);
            }
            let cs = to_chars(&p);
            let dir = trim_path(&from_range(&cs, 0, cs.len() - to_chars(&n).len()));
            join_path(&dir, name)
        },
        None => join_path(path, name),
    }
}

/// Whether a path goes up.
pub fn goes_up(path: &str) -> (r: bool)
    ensures
        r == path_parts(path@).contains(Part::Parent),
{
    let parts = components(path);
    let ghost all = path_parts(path@);
    let mut i: usize = 0;
    while i < parts.len()
        invariant
            part_views(parts@) == all,
            all == path_parts(path@),
            i <= parts@.len(),
            forall|j: int| 0 <= j < i ==> all[j] != Part::Parent,
        decreases parts@.len() - i,
    {
        proof {
            assert(all[i as int] == parts@[i as int]@);
        }
        if matches!(parts[i], PathPart::Parent) {
            proof {
                assert(all.contains(Part::Parent));
            }
            return true;
        }
        i = i + 1;
    }
    false
}

/// A path that does not end with a slash or a point is trimmed already.
proof fn lemma_trimmed_already(s: Seq<char>)
    requires
        s.len() > 0,
        s.last() != '/',
        s.last() != '.' || (s.len() > 1 && s[s.len() - 2] != '/'),
    ensures
        trimmed_path(s) == s,
{
}

/// The last piece of a path.
proof fn lemma_piece_behind(dir: Seq<char>, name: Seq<char>)
    requires
        !name.contains('/'),
    ensures
        split_on(dir + seq!['/'] + name, '/').last() == name,
    decreases name.len(),
{
    let front = dir + seq!['/'];
    if name.len() == 0 {
        assert(front + name =~= front);
        assert(front.last() == '/');
        assert(split_on(front, '/').last() =~= name);
    } else {
        let init = name.drop_last();
        assert(!init.contains('/')) by {
            if init.contains('/') {
                let i = choose|i: int| 0 <= i < init.len() && init[i] == '/';
                assert(name[i] == '/');
            }
        }
        lemma_piece_behind(dir, init);
        assert((front + name).drop_last() =~= front + init);
        assert((front + name).last() == name.last());
        assert(name[name.len() - 1] != '/');
        crate::text::law_join_undoes_split(front + init, '/');
        assert(init.push(name.last()) =~= name);
    }
}

/// A file in a directory has its name behind the last slash, and another name
/// takes the place of that one.
pub proof fn law_names_in_directories(dir: Seq<char>, name: Seq<char>, other: Seq<char>)
    requires
        dir.len() > 0,
        dir.last() != '/' && dir.last() != '.',
        is_file_name(name),
        other.len() > 0 && other[0] != '/',
    ensures
        file_name_of(dir + seq!['/'] + name) == Some(name),
        with_name(dir + seq!['/'] + name, other) == dir + seq!['/'] + other,
{
    let s = dir + seq!['/'] + name;
    let n = name.len() as int;
    assert(s.last() == name[n - 1]);
    assert(name[n - 1] != '/');
    if s.last() == '.' {
        if n == 1 {
            assert(name =~= seq!['.']);
        }
        assert(s[s.len() - 2] == name[n - 2]);
        assert(name[n - 2] != '/');
    }
    lemma_trimmed_already(s);
    lemma_piece_behind(dir, name);
    let front = s.take(s.len() - n);
    assert(front =~= dir + seq!['/']);
    assert(front.drop_last() =~= dir);
    lemma_trimmed_already(dir);
    assert(trimmed_path(front) == dir);
}

/// A path is resolved part by part: a name is entered, two points lead to the
/// directory above, one point stays, and the root begins anew.
pub proof fn law_resolving(from: Seq<Seq<char>>, parts: Seq<Part>, name: Seq<char>)
    ensures
        ({
            let at = resolved(from, parts);
            &&& resolved(from, parts.push(Part::Name(name))) == at.push(name)
            &&& resolved(from, parts.push(Part::Current)) == at
            &&& resolved(from, parts.push(Part::Root)).len() == 0
            &&& at.len() > 0 ==> resolved(from, parts.push(Part::Parent)) == at.drop_last()
            &&& at.len() == 0 ==> resolved(from, parts.push(Part::Parent)).len() == 0
            &&& resolved(from, Seq::empty()) == from
        }),
{
    assert(parts.push(Part::Name(name)).drop_last() =~= parts);
    assert(parts.push(Part::Current).drop_last() =~= parts);
    assert(parts.push(Part::Root).drop_last() =~= parts);
    assert(parts.push(Part::Parent).drop_last() =~= parts);
}

/// An absolute path leads to the same place from everywhere, and a relative
/// one goes on from the current directory.
pub proof fn law_real_paths(dir: Seq<char>, a: Seq<char>, b: Seq<char>)
    ensures
        dir.len() > 0 && dir[0] == '/' ==> real_path(dir, a) == real_path(dir, b),
        dir.len() == 0 && a.len() > 0 && a[0] == '/' ==> real_path(dir, a) == real_path(a, b),
        real_path(dir, a) == seq!['/'] + joined(
            resolved(resolved(Seq::empty(), path_parts(a)), path_parts(dir)),
            seq!['/'],
        ),
{
    if dir.len() > 0 && dir[0] == '/' {
        let parts = path_parts(dir);
        assert(parts[0] == Part::Root);
        lemma_root_first(resolved(Seq::empty(), path_parts(a)), parts);
        lemma_root_first(resolved(Seq::empty(), path_parts(b)), parts);
    }
    if dir.len() == 0 && a.len() > 0 && a[0] == '/' {
        assert(split_on(dir, '/') =~= seq![Seq::<char>::empty()]);
        assert(split_on(dir, '/').drop_last() =~= Seq::<Seq<char>>::empty());
        reveal_with_fuel(piece_parts, 2);
        assert(path_parts(dir) =~= Seq::<Part>::empty());
        assert(path_parts(a)[0] == Part::Root);
        lemma_root_first(Seq::empty(), path_parts(a));
        lemma_root_first(resolved(Seq::empty(), path_parts(b)), path_parts(a));
    }
}

/// Parts that begin with the root lead to the same place from everywhere.
proof fn lemma_root_first(from: Seq<Seq<char>>, parts: Seq<Part>)
    requires
        parts.len() > 0,
        parts[0] == Part::Root,
    ensures
        resolved(from, parts) == resolved(Seq::empty(), parts),
    decreases parts.len(),
{
    if parts.len() > 1 {
        assert(parts.drop_last()[0] == parts[0]);
        lemma_root_first(from, parts.drop_last());
    } else {
        assert(parts.last() == Part::Root);
    }
}

/// Between slashes, nothing is no part, two points lead upward, and any other
/// text is a name. A single point is a part only where it begins a path.
pub proof fn law_pieces_of_paths(pieces: Seq<Seq<char>>, piece: Seq<char>)
    requires
        pieces.len() > 0,
    ensures
        ({
            let before = piece_parts(pieces);
            let now = piece_parts(pieces.push(piece));
            &&& piece.len() == 0 ==> now == before
            &&& piece == seq!['.'] ==> now == before
            &&& piece == seq!['.', '.'] ==> now == before.push(Part::Parent)
            &&& piece.len() > 0 && piece != seq!['.'] && piece != seq!['.', '.'] ==> now
                == before.push(Part::Name(piece))
        }),
        piece_parts(seq![seq!['.']]) == seq![Part::Current],
{
    assert(pieces.push(piece).drop_last() =~= pieces);
    assert(seq!['.', '.'].len() == 2 && seq!['.'].len() == 1);
    let one = seq![seq!['.']];
    assert(one.drop_last() =~= Seq::<Seq<char>>::empty());
    assert(one.last() == seq!['.']);
    assert(piece_parts(one.drop_last()) =~= Seq::<Part>::empty());
    assert(piece_parts(one) =~= seq![Part::Current]);
}

/// A path is under another where its parts begin with the parts of the other.
/// What is below is the rest of its parts.
pub proof fn law_paths_under_others(path: Seq<char>, root: Seq<char>, rest: Seq<Part>)
    ensures
        path_parts(path) == path_parts(root) + rest ==> is_under(path, root) && below(path, root)
            == Some(rest),
        is_under(path, root) ==> exists|more: Seq<Part>| path_parts(path) == #[trigger] (path_parts(
            root,
        ) + more),
        !is_under(path, root) ==> below(path, root) is None,
        is_under(path, path),
{
    let r = path_parts(root);
    let p = path_parts(path);
    if p == r + rest {
        assert(r.is_prefix_of(p));
        assert(p.skip(r.len() as int) =~= rest);
    }
    if is_under(path, root) {
        let more = p.skip(r.len() as int);
        assert(p =~= r + more);
    }
}

} // verus!
