//! Transcripts as text: one JSON object on each line.
use vstd::prelude::*;

use crate::json::{is_plain, json, member_lists, members, object_value, parsed, Json, Members};
use crate::sessions::mutations::line_of;
use crate::sessions::transcript::{transcript_of, transcript_only, TranscriptEntry};
use crate::text::{joined, push_text, split_on, text_views, trim, trimmed};

verus! {

broadcast use vstd::string::group_string_axioms;

/// The object on a line, where the line holds one.
pub open spec fn line_object(line: Seq<char>) -> Option<Members> {
    let bare = trimmed(line);
    if bare.len() == 0 {
        None
    } else {
        match parsed(bare) {
            Some(Json::Object(m)) => Some(m),
            _ => None,
        }
    }
}

/// The objects on lines. Lines that hold none are passed over.
pub open spec fn line_objects(lines: Seq<Seq<char>>) -> Seq<Members>
    decreases lines.len(),
{
    if lines.len() == 0 {
        Seq::empty()
    } else {
        let before = line_objects(lines.drop_last());
        match line_object(lines.last()) {
            Some(m) => before.push(m),
            None => before,
        }
    }
}

/// The object on a line, where the line holds one.
pub fn read_object_line(line: &str) -> (r: Option<TranscriptEntry>)
    ensures
        match r {
            Some(e) => line_object(line@) == Some(members(e)),
            None => line_object(line@) is None,
        },
{
    let bare = trim(line);
    if bare.as_str().is_empty() {
        return None;
    }
    match crate::json::parse(&bare) {
        Some(v) => match v.as_object() {
            Some(m) => Some(m.clone()),
            None => None,
        },
        None => None,
    }
}

/// The objects on the lines of a text.
pub fn parse_object_lines(text: &str) -> (r: Vec<TranscriptEntry>)
    ensures
        member_lists(r@) == line_objects(split_on(text@, '\n')),
{
    let lines = crate::text::split(text, '\n');
    let ghost all = split_on(text@, '\n');
    let mut out: Vec<TranscriptEntry> = Vec::new();
    let mut i: usize = 0;
    proof {
        assert(all.take(0) =~= Seq::<Seq<char>>::empty());
        assert(member_lists(out@) =~= Seq::<Members>::empty());
    }
    while i < lines.len()
        invariant
            all == text_views(lines@),
            i <= lines@.len(),
            member_lists(out@) == line_objects(all.take(i as int)),
        decreases lines@.len() - i,
    {
        let ghost were = out@;
        proof {
            assert(all.take(i as int + 1).drop_last() =~= all.take(i as int));
            assert(all.take(i as int + 1).last() == lines@[i as int]@);
        }
        match read_object_line(&lines[i]) {
            Some(e) => {
                out.push(e);
                proof {
                    assert(member_lists(out@) =~= member_lists(were).push(members(e)));
                }
            },
            None => {},
        }
        i = i + 1;
    }
    proof {
        assert(all.take(all.len() as int) =~= all);
    }
    out
}

/// The objects on lines that are not blank.
pub open spec fn objects_on(lines: Seq<Seq<char>>) -> Seq<Members>
    decreases lines.len(),
{
    if lines.len() == 0 {
        Seq::empty()
    } else {
        let before = objects_on(lines.drop_last());
        match parsed(lines.last()) {
            Some(Json::Object(m)) if trimmed(lines.last()).len() > 0 => before.push(m),
            _ => before,
        }
    }
}

/// Every line that is not blank is an object.
pub open spec fn are_objects(lines: Seq<Seq<char>>) -> bool {
    forall|i: int|
        0 <= i < lines.len() && trimmed(#[trigger] lines[i]).len() > 0 ==> (parsed(
            lines[i],
        ) matches Some(Json::Object(_)))
}

/// A text with these entries on its lines, and nothing else.
pub open spec fn holds(text: Seq<char>, es: Seq<Members>) -> bool {
    let lines = split_on(text, '\n');
    line_objects(lines) == es && objects_on(lines) == es && are_objects(lines)
}

/// The lines of entries, one after the other.
pub open spec fn entries_text(es: Seq<Members>) -> Seq<char>
    decreases es.len(),
{
    if es.len() == 0 {
        Seq::empty()
    } else {
        entries_text(es.drop_last()) + line_of(Json::Object(es.last()))
    }
}

/// A line put behind whole lines is the last piece but one.
pub proof fn lemma_split_line(s: Seq<char>, p: Seq<char>)
    requires
        split_on(s, '\n').last() == Seq::<char>::empty(),
        !p.contains('\n'),
    ensures
        split_on(s + p, '\n') == split_on(s, '\n').drop_last().push(p),
        split_on(s + p.push('\n'), '\n') == split_on(s, '\n').drop_last().push(p).push(
            Seq::empty(),
        ),
    decreases p.len(),
{
    crate::text::law_join_undoes_split(s, '\n');
    let before = split_on(s, '\n');
    if p.len() == 0 {
        assert(s + p =~= s);
        assert(before =~= before.drop_last().push(before.last()));
        assert(p =~= Seq::<char>::empty());
    } else {
        let q = p.drop_last();
        assert(!q.contains('\n')) by {
            if q.contains('\n') {
                let i = choose|i: int| 0 <= i < q.len() && q[i] == '\n';
                assert(p[i] == '\n');
            }
        }
        lemma_split_line(s, q);
        assert((s + p).drop_last() =~= s + q);
        assert((s + p).last() == p.last());
        assert(p.last() != '\n') by {
            assert(p[p.len() - 1] == p.last());
        }
        let inner = split_on(s + q, '\n');
        assert(inner.drop_last() =~= before.drop_last());
        assert(inner.last() == q);
        assert(q.push(p.last()) =~= p);
        assert(split_on(s + p, '\n') =~= before.drop_last().push(p));
    }
    let whole = s + p.push('\n');
    assert(whole.drop_last() =~= s + p);
    assert(whole.last() == '\n');
    assert(split_on(whole, '\n') =~= before.drop_last().push(p).push(Seq::empty()));
}

/// A text in braces has no white space at its ends.
proof fn lemma_braces_trimmed(p: Seq<char>)
    requires
        p.len() >= 2,
        p[0] == '{',
        p.last() == '}',
    ensures
        trimmed(p) == p,
{
}

/// Whether each entry is plain: without numbers with a fraction, and not
/// nested too deep.
pub open spec fn all_plain(es: Seq<Members>) -> bool {
    forall|i: int| 0 <= i < es.len() ==> is_plain(Json::Object(#[trigger] es[i]), 100)
}

/// What one more line adds to the objects of a text.
proof fn lemma_line_objects(s: Seq<char>, p: Seq<char>, m: Members, es: Seq<Members>)
    requires
        split_on(s, '\n').last() == Seq::<char>::empty(),
        holds(s, es),
        !p.contains('\n'),
        p.len() >= 2,
        p[0] == '{',
        p.last() == '}',
        parsed(p) == Some(Json::Object(m)),
    ensures
        holds(s + p.push('\n'), es.push(m)),
        split_on(s + p.push('\n'), '\n').last() == Seq::<char>::empty(),
{
    lemma_split_line(s, p);
    lemma_braces_trimmed(p);
    crate::text::law_join_undoes_split(s, '\n');
    let before = split_on(s, '\n');
    let head = before.drop_last();
    assert(before =~= head.push(Seq::<char>::empty()));
    assert(head.push(Seq::<char>::empty()).drop_last() =~= head);
    assert(line_object(Seq::<char>::empty()) is None) by {
        assert(trimmed(Seq::<char>::empty()) =~= Seq::<char>::empty());
    }
    assert(line_objects(head) == es);
    let now = head.push(p).push(Seq::<char>::empty());
    assert(now.drop_last() =~= head.push(p));
    assert(head.push(p).drop_last() =~= head);
    assert(line_objects(head.push(p)) == es.push(m));
    assert(objects_on(head) == es);
    assert(objects_on(head.push(p)) == es.push(m));
    assert forall|i: int| 0 <= i < now.len() && trimmed(#[trigger] now[i]).len() > 0 implies (
    parsed(now[i]) matches Some(Json::Object(_))) by {
        if i < head.len() {
            assert(before[i] == now[i]);
        }
    }
}

/// A line that is read as an object, and nothing but a line.
pub open spec fn reads_as(line: Seq<char>, m: Members) -> bool {
    let p = line.drop_last();
    &&& line.len() >= 3 && line.last() == '\n'
    &&& !p.contains('\n') && p[0] == '{' && p.last() == '}'
    &&& parsed(p) == Some(Json::Object(m))
}

/// Lines that are read as these objects.
pub open spec fn all_read_as(lines: Seq<Seq<char>>, es: Seq<Members>) -> bool {
    &&& lines.len() == es.len()
    &&& forall|i: int| 0 <= i < lines.len() ==> reads_as(#[trigger] lines[i], es[i])
}

/// An empty line behind a text changes nothing of what it holds.
proof fn lemma_blank_line(s: Seq<char>, es: Seq<Members>)
    requires
        holds(s, es),
    ensures
        holds(s.push('\n'), es),
        split_on(s.push('\n'), '\n').last() == Seq::<char>::empty(),
{
    let none = Seq::<char>::empty();
    let before = split_on(s, '\n');
    let now = before.push(none);
    assert(s.push('\n').drop_last() =~= s);
    assert(split_on(s.push('\n'), '\n') == now);
    assert(now.drop_last() =~= before);
    assert(line_object(none) is None) by {
        assert(trimmed(none) =~= none);
    }
    assert forall|i: int| 0 <= i < now.len() && trimmed(#[trigger] now[i]).len() > 0 implies (
    parsed(now[i]) matches Some(Json::Object(_))) by {
        assert(before[i] == now[i]);
    }
}

/// Lines with one more line break between each two hold what the lines hold.
pub proof fn lemma_spaced_lines(lines: Seq<Seq<char>>, es: Seq<Members>)
    requires
        all_read_as(lines, es),
        lines.len() > 0,
    ensures
        holds(joined(lines, "\n"@), es),
        holds(joined(lines, "\n"@).push('\n'), es),
    decreases lines.len(),
{
    reveal_strlit("\n");
    let p = lines.last().drop_last();
    let m = es.last();
    let es0 = es.drop_last();
    assert(reads_as(lines[lines.len() - 1], es[lines.len() - 1]));
    assert(lines.last() =~= p.push('\n'));
    assert(es =~= es0.push(m));
    if lines.len() == 1 {
        let none = Seq::<char>::empty();
        assert(split_on(none, '\n') =~= seq![none]);
        assert(line_object(none) is None) by {
            assert(trimmed(none) =~= none);
        }
        reveal_with_fuel(line_objects, 2);
        reveal_with_fuel(objects_on, 2);
        assert(line_objects(split_on(none, '\n')) =~= es0);
        assert(objects_on(split_on(none, '\n')) =~= es0);
        lemma_line_objects(none, p, m, es0);
        assert(none + p.push('\n') =~= joined(lines, "\n"@));
    } else {
        let lines0 = lines.drop_last();
        assert(all_read_as(lines0, es0)) by {
            assert forall|i: int| 0 <= i < lines0.len() implies reads_as(
                #[trigger] lines0[i],
                es0[i],
            ) by {
                assert(reads_as(lines[i], es[i]));
            }
        }
        lemma_spaced_lines(lines0, es0);
        let s0 = joined(lines0, "\n"@);
        lemma_blank_line(s0, es0);
        lemma_line_objects(s0.push('\n'), p, m, es0);
        assert(s0.push('\n') + p.push('\n') =~= joined(lines, "\n"@));
    }
    lemma_blank_line(joined(lines, "\n"@), es);
}

/// Writes entries as JSON lines.
///
/// The text is read back as the same entries where they are plain.
pub fn text_of_entries(entries: &Vec<TranscriptEntry>) -> (r: String)
    ensures
        r@ == entries_text(member_lists(entries@)),
        all_plain(member_lists(entries@)) ==> holds(r@, member_lists(entries@)),
{
    let ghost es = member_lists(entries@);
    let mut out = String::new();
    let mut i: usize = 0;
    proof {
        assert(es.take(0) =~= Seq::<Members>::empty());
        assert(out@ =~= Seq::<char>::empty());
        assert(split_on(out@, '\n') =~= seq![Seq::<char>::empty()]);
        assert(line_object(Seq::<char>::empty()) is None) by {
            assert(trimmed(Seq::<char>::empty()) =~= Seq::<char>::empty());
        }
        reveal_with_fuel(line_objects, 2);
        reveal_with_fuel(objects_on, 2);
        assert(line_objects(split_on(out@, '\n')) =~= es.take(0));
        assert(objects_on(split_on(out@, '\n')) =~= es.take(0));
    }
    while i < entries.len()
        invariant
            es == member_lists(entries@),
            i <= entries@.len(),
            out@ == entries_text(es.take(i as int)),
            all_plain(es) ==> holds(out@, es.take(i as int)),
            all_plain(es) ==> split_on(out@, '\n').last() == Seq::<char>::empty(),
        decreases entries@.len() - i,
    {
        proof {
            assert(es.take(i as int + 1).drop_last() =~= es.take(i as int));
            assert(es.take(i as int + 1).last() == members(entries@[i as int]));
        }
        let ghost was = out@;
        let ghost m = members(entries@[i as int]);
        let mut line = crate::json::print(&object_value(entries[i].clone()));
        let ghost p = line@;
        line.push('\n');
        push_text(&mut out, &line);
        proof {
            assert(line@ == line_of(Json::Object(m)));
            if all_plain(es) {
                assert(es[i as int] == m);
                assert(is_plain(Json::Object(es[i as int]), 100));
                crate::json::lemma_object_in_braces(m);
                lemma_line_objects(was, p, m, es.take(i as int));
                assert(es.take(i as int).push(m) =~= es.take(i as int + 1));
            }
        }
        i = i + 1;
    }
    proof {
        assert(es.take(es.len() as int) =~= es);
    }
    out
}

/// The file of a session and its entries in a store give the same transcript:
/// reading the lines and keeping the transcript entries is reading the objects
/// and filtering them.
pub proof fn law_disk_and_store_read_alike(lines: Seq<Seq<char>>)
    ensures
        transcript_of(lines) == transcript_only(line_objects(lines)),
    decreases lines.len(),
{
    reveal(Seq::filter);
    if lines.len() > 0 {
        law_disk_and_store_read_alike(lines.drop_last());
        let objects = line_objects(lines.drop_last());
        if let Some(m) = line_object(lines.last()) {
            assert(objects.push(m).drop_last() =~= objects);
            assert(objects.push(m).last() == m);
        }
    }
}

/// Objects are read line by line, in order: the object on a line without the
/// white space at its ends, and nothing of a blank line, of one that is no
/// JSON text, or of one that is no object.
pub proof fn law_lines_are_read_in_order(a: Seq<Seq<char>>, b: Seq<Seq<char>>, line: Seq<char>)
    ensures
        line_objects(a + b) == line_objects(a) + line_objects(b),
        line_objects(Seq::empty()).len() == 0,
        match parsed(trimmed(line)) {
            Some(Json::Object(m)) => trimmed(line).len() > 0 ==> line_objects(seq![line])
                == seq![m],
            _ => line_objects(seq![line]).len() == 0,
        },
        trimmed(line).len() == 0 ==> line_objects(seq![line]).len() == 0,
    decreases b.len(),
{
    let none = Seq::<Members>::empty();
    assert(seq![line].drop_last() =~= Seq::<Seq<char>>::empty());
    assert(seq![line].last() == line);
    assert(line_objects(seq![line].drop_last()) =~= none);
    if let Some(m) = line_object(line) {
        assert(none.push(m) =~= seq![m]);
    }
    if b.len() > 0 {
        law_lines_are_read_in_order(a, b.drop_last(), line);
        assert((a + b).drop_last() =~= a + b.drop_last());
        assert((a + b).last() == b.last());
        assert(line_objects(a + b) =~= line_objects(a) + line_objects(b));
    } else {
        assert(a + b =~= a);
        assert(line_objects(a) + line_objects(b) =~= line_objects(a));
    }
}

/// Entries are written one by one, in order: each as its compact text and a
/// line break.
pub proof fn law_entries_are_written_in_order(a: Seq<Members>, b: Seq<Members>, e: Members)
    ensures
        entries_text(a + b) == entries_text(a) + entries_text(b),
        entries_text(Seq::empty()).len() == 0,
        entries_text(seq![e]) == crate::json::printed(Json::Object(e)) + seq!['\n'],
    decreases b.len(),
{
    assert(seq![e].drop_last() =~= Seq::<Members>::empty());
    assert(seq![e].last() == e);
    assert(entries_text(seq![e].drop_last()) =~= Seq::<char>::empty());
    assert(entries_text(seq![e]) =~= crate::json::printed(Json::Object(e)) + seq!['\n']);
    if b.len() > 0 {
        law_entries_are_written_in_order(a, b.drop_last(), e);
        assert((a + b).drop_last() =~= a + b.drop_last());
        assert((a + b).last() == b.last());
        assert(entries_text(a + b) =~= entries_text(a) + entries_text(b));
    } else {
        assert(a + b =~= a);
        assert(entries_text(a) + entries_text(b) =~= entries_text(a));
    }
}

} // verus!
