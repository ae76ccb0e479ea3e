//! What a listing shows of a title or a tag that was appended to a transcript.
//!
//! A listing reads titles and tags off the text at the end of a transcript,
//! without a parse of it. The laws here say that it finds what was appended
//! last, whatever stands before.
use vstd::prelude::*;

use crate::json::{
    comma_before, escaped, escaped_char, lookup, parsed, printed, printed_members, quoted,
    reads_back, Json, Members,
};
use crate::sessions::jsonl::lemma_split_line;
use crate::sessions::lite::{
    field_mark, is_hex, is_sidechain_head, is_uuid, last_field, last_full, last_tag_line,
    last_value, lite_info, next_value, string_end, tag_in, title_in, unescaped,
};
use crate::sessions::mutations::{is_entry_line, tag_members, title_members};
use crate::sessions::store_queries::hoisted;
use crate::text::{find_from, lemma_find_from, nonempty_view, occurs_at, split_on};

verus! {

broadcast use vstd::string::group_string_axioms;

// ---------------------------------------------------------------------------
// Texts in JSON strings
// ---------------------------------------------------------------------------

/// A character that stands for itself in a JSON string.
spec fn is_bare(c: char) -> bool {
    c != '"' && c != '\\' && c as u32 >= 32
}

/// A text of characters that stand for themselves stands for itself.
proof fn lemma_escaped_bare(s: Seq<char>)
    requires
        forall|i: int| 0 <= i < s.len() ==> is_bare(#[trigger] s[i]),
    ensures
        escaped(s) == s,
    decreases s.len(),
{
    if s.len() > 0 {
        assert forall|i: int| 0 <= i < s.skip(1).len() implies is_bare(#[trigger] s.skip(1)[i]) by {
            assert(is_bare(s[i + 1]));
        }
        lemma_escaped_bare(s.skip(1));
        assert(is_bare(s[0]));
        assert(escaped_char(s[0]) =~= seq![s[0]]);
        assert(escaped(s) =~= s);
    }
}

/// In a JSON string every quote has a backslash before it, there is no line
/// break, and without a backslash every character stands for itself.
proof fn lemma_escaped(t: Seq<char>)
    ensures
        forall|k: int| 0 <= k < escaped(t).len() && (#[trigger] escaped(t)[k]) == '"' ==> k > 0
            && escaped(t)[k - 1] == '\\',
        forall|k: int| 0 <= k < escaped(t).len() ==> (#[trigger] escaped(t)[k]) != '\n',
        (forall|k: int| 0 <= k < escaped(t).len() ==> (#[trigger] escaped(t)[k]) != '\\')
            ==> escaped(t) == t,
    decreases t.len(),
{
    if t.len() > 0 {
        let first = escaped_char(t[0]);
        let rest = escaped(t.skip(1));
        let whole = escaped(t);
        lemma_escaped(t.skip(1));
        assert(whole == first + rest);
        assert forall|k: int| 0 <= k < whole.len() && (#[trigger] whole[k]) == '"' implies k > 0
            && whole[k - 1] == '\\' by {
            if k >= first.len() {
                assert(rest[k - first.len()] == '"');
                assert(rest[k - first.len() - 1] == '\\');
            } else {
                assert(first[k] == '"');
            }
        }
        assert forall|k: int| 0 <= k < whole.len() implies (#[trigger] whole[k]) != '\n' by {
            if k >= first.len() {
                assert(rest[k - first.len()] != '\n');
            } else {
                assert(first[k] != '\n');
            }
        }
        if forall|k: int| 0 <= k < whole.len() ==> (#[trigger] whole[k]) != '\\' {
            assert(whole[0] == first[0]);
            assert(first =~= seq![t[0]]);
            assert forall|k: int| 0 <= k < rest.len() implies (#[trigger] rest[k]) != '\\' by {
                assert(whole[k + 1] == rest[k]);
            }
            assert(whole =~= t);
        }
    } else {
        assert(escaped(t) =~= t);
    }
}

/// A text in a JSON string ends at the quote behind it.
proof fn lemma_string_end(s: Seq<char>, start: int, t: Seq<char>)
    requires
        0 <= start,
        start + escaped(t).len() < s.len(),
        forall|k: int|
            0 <= k < escaped(t).len() ==> s[start + k] == (#[trigger] escaped(t)[k]),
        s[start + escaped(t).len()] == '"',
    ensures
        string_end(s, start) == start + escaped(t).len(),
    decreases t.len(),
{
    if t.len() > 0 {
        let first = escaped_char(t[0]);
        let rest = escaped(t.skip(1));
        let n = first.len() as int;
        assert(escaped(t) == first + rest);
        assert forall|k: int| 0 <= k < rest.len() implies s[start + n + k] == (#[trigger] rest[k]) by {
            assert(escaped(t)[n + k] == rest[k]);
        }
        lemma_string_end(s, start + n, t.skip(1));
        assert forall|k: int| 0 <= k < n implies s[start + k] == (#[trigger] first[k]) by {
            assert(escaped(t)[k] == first[k]);
        }
        assert(s[start] == first[0]);
        if n == 6 {
            assert(s[start + 2] == first[2]);
            assert(s[start + 3] == first[3]);
            assert(s[start + 4] == first[4]);
            assert(s[start + 5] == first[5]);
            reveal_with_fuel(string_end, 6);
            assert(string_end(s, start) == string_end(s, start + 6));
        } else if n == 2 {
            assert(string_end(s, start) == string_end(s, start + 2));
        } else {
            assert(n == 1);
            assert(string_end(s, start) == string_end(s, start + 1));
        }
    }
}

/// A text is read off the JSON string in which it stands.
proof fn lemma_unescaped(t: Seq<char>)
    requires
        parsed(quoted(t)) == Some(Json::Str(t)),
    ensures
        unescaped(escaped(t)) == t,
{
    lemma_escaped(t);
    let e = escaped(t);
    if !e.contains('\\') {
        assert forall|k: int| 0 <= k < e.len() implies (#[trigger] e[k]) != '\\' by {
            if e[k] == '\\' {
                assert(e.contains('\\'));
            }
        }
    }
}

/// The text of an object of three texts.
proof fn lemma_three_texts(
    k1: Seq<char>,
    v1: Seq<char>,
    k2: Seq<char>,
    v2: Seq<char>,
    k3: Seq<char>,
    v3: Seq<char>,
)
    ensures
        printed(Json::Object(seq![(k1, Json::Str(v1)), (k2, Json::Str(v2)), (k3, Json::Str(v3))]))
            == seq!['{'] + quoted(k1) + seq![':'] + quoted(v1) + seq![','] + quoted(k2) + seq![':']
            + quoted(v2) + seq![','] + quoted(k3) + seq![':'] + quoted(v3) + seq!['}'],
{
    let m = seq![(k1, Json::Str(v1)), (k2, Json::Str(v2)), (k3, Json::Str(v3))];
    reveal(printed);
    assert(printed(m[0].1) == quoted(v1));
    assert(printed(m[1].1) == quoted(v2));
    assert(printed(m[2].1) == quoted(v3));
    let none = Seq::<char>::empty();
    assert(printed_members(m, 0) == none);
    assert(printed_members(m, 1) =~= quoted(k1) + seq![':'] + quoted(v1));
    assert(printed_members(m, 2) =~= printed_members(m, 1) + seq![','] + quoted(k2) + seq![':']
        + quoted(v2));
    assert(printed_members(m, 3) =~= printed_members(m, 2) + seq![','] + quoted(k3) + seq![':']
        + quoted(v3));
    assert(printed(Json::Object(m)) =~= seq!['{'] + printed_members(m, 3) + seq!['}']);
}

/// The characters of a UUID are neither quotes nor anything that is escaped.
proof fn lemma_uuid_bare(id: Seq<char>)
    requires
        is_uuid(id),
    ensures
        escaped(id) == id,
        forall|i: int| 0 <= i < id.len() ==> (is_hex(#[trigger] id[i]) || id[i] == '-'),
{
    assert forall|i: int| 0 <= i < id.len() implies is_bare(#[trigger] id[i]) by {
    }
    lemma_escaped_bare(id);
}

// ---------------------------------------------------------------------------
// The last value
// ---------------------------------------------------------------------------

/// A string that is open before a brace and a quote ends at that quote at the
/// latest.
proof fn lemma_string_ends_at_line(s: Seq<char>, from: int, line: int)
    requires
        0 <= from <= line,
        line + 1 < s.len(),
        s[line] == '{',
        s[line + 1] == '"',
    ensures
        from <= string_end(s, from) <= line + 1,
    decreases line - from,
{
    if from == line {
        reveal_with_fuel(string_end, 2);
    } else if s[from] == '\\' {
        if from + 2 <= line {
            lemma_string_ends_at_line(s, from + 2, line);
        } else {
            assert(string_end(s, line + 1) == line + 1);
        }
    } else if s[from] != '"' {
        lemma_string_ends_at_line(s, from + 1, line);
    }
}

/// The value on the line that begins at `line` is the last one: the mark at
/// `at` is the last, and every other stands before the line.
proof fn lemma_last_value(
    s: Seq<char>,
    key: Seq<char>,
    line: int,
    at: int,
    value: Seq<char>,
    from: int,
    otherwise: Option<Seq<char>>,
)
    requires
        0 <= line,
        line + 2 <= at,
        line + 1 < s.len(),
        s[line] == '{',
        s[line + 1] == '"',
        occurs_at(s, field_mark(key, false), at),
        forall|i: int|
            0 <= i && i != at && #[trigger] occurs_at(s, field_mark(key, false), i) ==> i
                + field_mark(key, false).len() <= line,
        forall|i: int|
            0 <= i && #[trigger] occurs_at(s, field_mark(key, true), i) ==> i + field_mark(
                key,
                true,
            ).len() <= line,
        at + field_mark(key, false).len() <= string_end(s, at + field_mark(key, false).len())
            < s.len(),
        unescaped(
            s.subrange(
                at + field_mark(key, false).len(),
                string_end(s, at + field_mark(key, false).len()),
            ),
        ) == value,
        0 <= from <= at,
    ensures
        last_value(s, key, from, otherwise) == Some(value),
    decreases at - from,
{
    let plain = field_mark(key, false);
    let spaced = field_mark(key, true);
    lemma_find_from(s, plain, from);
    lemma_find_from(s, spaced, from);
    assert(find_from(s, plain, from) is Some && find_from(s, plain, from)->0 <= at);
    let start = next_value(s, key, from)->0;
    let end = string_end(s, start);
    reveal_strlit("\"");
    reveal_strlit("\":\"");
    reveal_strlit("\": \"");
    assert(plain.len() > 0 && spaced.len() > 0);
    if start == at + plain.len() {
        lemma_find_from(s, plain, end + 1);
        lemma_find_from(s, spaced, end + 1);
        assert(find_from(s, plain, end + 1) is None);
        assert(find_from(s, spaced, end + 1) is None);
        assert(last_value(s, key, end + 1, Some(value)) == Some(value));
    } else {
        assert(from < start <= line);
        lemma_string_ends_at_line(s, start, line);
        lemma_last_value(
            s,
            key,
            line,
            at,
            value,
            end + 1,
            Some(unescaped(s.subrange(start, end))),
        );
    }
}

// ---------------------------------------------------------------------------
// A title
// ---------------------------------------------------------------------------

/// The text of the entry that gives a session a title.
proof fn lemma_title_text(title: Seq<char>, session_id: Seq<char>)
    requires
        is_uuid(session_id),
    ensures
        printed(Json::Object(title_members(title, session_id)))
            == "{\"type\":\"custom-title\",\"customTitle\":\""@ + escaped(title)
            + "\",\"sessionId\":\""@ + session_id + "\"}"@,
{
    lemma_three_texts(
        "type"@,
        "custom-title"@,
        "customTitle"@,
        title,
        "sessionId"@,
        session_id,
    );
    lemma_uuid_bare(session_id);
    reveal_strlit("type");
    reveal_strlit("custom-title");
    reveal_strlit("customTitle");
    reveal_strlit("sessionId");
    lemma_escaped_bare("type"@);
    lemma_escaped_bare("custom-title"@);
    lemma_escaped_bare("customTitle"@);
    lemma_escaped_bare("sessionId"@);
    reveal_strlit("{\"type\":\"custom-title\",\"customTitle\":\"");
    reveal_strlit("\",\"sessionId\":\"");
    reveal_strlit("\"}");
    assert(printed(Json::Object(title_members(title, session_id)))
        =~= "{\"type\":\"custom-title\",\"customTitle\":\""@ + escaped(title)
        + "\",\"sessionId\":\""@ + session_id + "\"}"@);
}

/// What stands behind the text in an entry that gives a title or a tag, up to
/// the identifier of the session.
spec fn behind() -> Seq<char> {
    "\",\"sessionId\":\""@
}

/// A text from position `b` on: `front`, a text in a JSON string, and the
/// identifier of a session, at the end of an object.
spec fn is_laid_out(s: Seq<char>, b: int, front: Seq<char>, e: Seq<char>, id: Seq<char>) -> bool {
    let start = b + front.len();
    let end = start + e.len();
    &&& 0 <= b && end + 53 <= s.len() <= end + 54
    &&& behind().len() == 15 && id.len() == 36
    &&& forall|k: int| 0 <= k < front.len() ==> s[b + k] == (#[trigger] front[k])
    &&& forall|k: int| 0 <= k < e.len() ==> s[start + k] == (#[trigger] e[k])
    &&& forall|k: int| 0 <= k < 15 ==> s[end + k] == (#[trigger] behind()[k])
    &&& forall|k: int| 0 <= k < 36 ==> s[end + 15 + k] == (#[trigger] id[k])
    &&& s[end + 51] == '"' && s[end + 52] == '}' && (s.len() == end + 54 ==> s[end + 53] == '\n')
}

/// A concatenation is laid out by its parts.
proof fn lemma_laid_out(
    before: Seq<char>,
    front: Seq<char>,
    e: Seq<char>,
    id: Seq<char>,
    line: Seq<char>,
)
    requires
        id.len() == 36,
        line == front + e + behind() + id + "\"}"@,
    ensures
        is_laid_out(before + line, before.len() as int, front, e, id),
        is_laid_out(before + line.push('\n'), before.len() as int, front, e, id),
{
    reveal_strlit("\",\"sessionId\":\"");
    reveal_strlit("\"}");
    let b = before.len() as int;
    let start = b + front.len();
    let end = start + e.len();
    let last = "\"}"@;
    assert(line.len() == front.len() + e.len() + 15 + 36 + 2);
    let s = before + line;
    let s2 = before + line.push('\n');
    assert forall|k: int| 0 <= k < s.len() implies s2[k] == s[k] by {
    }
    assert forall|k: int| 0 <= k < front.len() implies s[b + k] == (#[trigger] front[k]) by {
    }
    assert forall|k: int| 0 <= k < e.len() implies s[start + k] == (#[trigger] e[k]) by {
    }
    assert forall|k: int| 0 <= k < 15 implies s[end + k] == (#[trigger] behind()[k]) by {
    }
    assert forall|k: int| 0 <= k < 36 implies s[end + 15 + k] == (#[trigger] id[k]) by {
    }
    assert(s[end + 51] == last[0] && s[end + 52] == last[1]);
}

/// Where a quote stands behind a text that is laid out, what follows it is no
/// colon but at one place.
proof fn lemma_quotes_behind(
    s: Seq<char>,
    b: int,
    front: Seq<char>,
    e: Seq<char>,
    id: Seq<char>,
    q: int,
)
    requires
        is_laid_out(s, b, front, e, id),
        is_uuid(id),
        b + front.len() + e.len() <= q,
        q + 1 < s.len(),
        s[q] == '"',
    ensures
        s[q + 1] == ':' ==> q == b + front.len() + e.len() + 12,
        q < s.len() - 1 ==> s[q + 1] != 'c' || q == b + front.len() + e.len() + 14,
{
    reveal_strlit("\",\"sessionId\":\"");
    lemma_uuid_bare(id);
    let end = b + front.len() + e.len();
    let r = q - end;
    if r < 14 {
        assert(s[q] == behind()[r]);
        assert(s[q + 1] == behind()[r + 1]);
    } else if r == 14 {
        assert(s[q + 1] == id[0]);
        assert(is_hex(id[0]) || id[0] == '-');
    } else if r < 51 {
        assert(s[q] == id[r - 15]);
        assert(is_hex(id[r - 15]) || id[r - 15] == '-');
    }
}

/// A quote in a text that is laid out has a backslash before it.
proof fn lemma_quotes_inside(
    s: Seq<char>,
    b: int,
    front: Seq<char>,
    t: Seq<char>,
    id: Seq<char>,
    q: int,
)
    requires
        is_laid_out(s, b, front, escaped(t), id),
        b + front.len() <= q < b + front.len() + escaped(t).len(),
        s[q] == '"',
    ensures
        b + front.len() < q,
        s[q - 1] == '\\',
{
    lemma_escaped(t);
    let start = b + front.len();
    assert(s[start + (q - start)] == escaped(t)[q - start]);
    assert(s[start + (q - start - 1)] == escaped(t)[q - start - 1]);
}

/// The marks of titles: none but the one of the line stands in the line or
/// reaches into it.
proof fn lemma_title_marks(
    s: Seq<char>,
    b: int,
    title: Seq<char>,
    id: Seq<char>,
    spaced: bool,
    i: int,
)
    requires
        is_uuid(id),
        is_laid_out(
            s,
            b,
            "{\"type\":\"custom-title\",\"customTitle\":\""@,
            escaped(title),
            id,
        ),
        occurs_at(s, field_mark("customTitle"@, spaced), i),
        spaced || i != b + 23,
    ensures
        i + field_mark("customTitle"@, spaced).len() <= b,
{
    let e = escaped(title);
    let mark = field_mark("customTitle"@, spaced);
    let front = "{\"type\":\"custom-title\",\"customTitle\":\""@;
    reveal_strlit("{\"type\":\"custom-title\",\"customTitle\":\"");
    reveal_strlit("\",\"sessionId\":\"");
    reveal_strlit("\"");
    reveal_strlit("customTitle");
    reveal_strlit("\":\"");
    reveal_strlit("\": \"");
    let start = b + 38;
    let end = start + e.len();
    let n = mark.len() as int;
    assert(n == if spaced { 16int } else { 15int });
    assert forall|k: int| 0 <= k < n implies s[i + k] == (#[trigger] mark[k]) by {
        assert(s.subrange(i, i + n)[k] == mark[k]);
    }
    assert(s[i] == mark[0] && s[i + 1] == mark[1] && s[i + 7] == mark[7] && s[i + 11] == mark[11]
        && s[i + 12] == mark[12] && s[i + 13] == mark[13]);
    assert(mark[0] == '"' && mark[1] == 'c' && mark[7] == 'T' && mark[11] == 'e' && mark[12] == '"'
        && mark[13] == ':');
    if i + n > b {
        let q = i + 12;
        if i <= b {
            assert(s[b + 0] == front[0]);
            assert(s[i + (b - i)] == mark[b - i]);
            assert(false);
        } else if i < b + 23 {
            assert(s[b + (i - b)] == front[i - b]);
            assert(s[b + (i - b + 1)] == front[i - b + 1]);
            assert(i == b + 8);
            assert(s[b + 15] == front[15]);
            assert(false);
        } else if i == b + 23 {
            assert(s[i + 14] == mark[14]);
            assert(s[b + 37] == front[37]);
            assert(false);
        } else if q < start {
            assert(s[b + (i - b)] == front[i - b]);
            assert(false);
        } else if q < end {
            lemma_quotes_inside(s, b, front, title, id, q);
            assert(false);
        } else {
            lemma_quotes_behind(s, b, front, e, id, q);
            assert(i == end);
            assert(s[end + 1] == behind()[1]);
            assert(false);
        }
    }
}

/// The value of the text in an entry line, by itself.
proof fn lemma_member_reads_back(m: Members, line: Seq<char>, i: int, t: Seq<char>)
    requires
        is_entry_line(line, m),
        0 <= i < m.len(),
        m[i].1 == Json::Str(t),
    ensures
        parsed(quoted(t)) == Some(Json::Str(t)),
{
    assert(reads_back(printed(Json::Object(m)), Json::Object(m)));
    assert(parsed(printed(m[i].1)) == Some(m[i].1));
    assert(printed(Json::Str(t)) == quoted(t)) by {
        reveal(printed);
    }
}

/// The last title in a text that ends with the line of a title.
proof fn lemma_last_title(before: Seq<char>, line: Seq<char>, title: Seq<char>, id: Seq<char>)
    requires
        is_uuid(id),
        is_entry_line(line, title_members(title, id)),
    ensures
        last_field(before + line, "customTitle"@) == Some(title),
{
    let s = before + line;
    let b = before.len() as int;
    let e = escaped(title);
    let mark = field_mark("customTitle"@, false);
    let front = "{\"type\":\"custom-title\",\"customTitle\":\""@;
    let at = b + 23;
    let start = b + 38;
    let end = start + e.len();
    lemma_title_text(title, id);
    lemma_laid_out(before, front, e, id, printed(Json::Object(title_members(title, id))));
    assert(is_laid_out(s, b, front, e, id));
    reveal_strlit("{\"type\":\"custom-title\",\"customTitle\":\"");
    reveal_strlit("\",\"sessionId\":\"");
    reveal_strlit("\"");
    reveal_strlit("customTitle");
    reveal_strlit("\":\"");
    assert(occurs_at(s, mark, at)) by {
        assert forall|k: int| 0 <= k < 15 implies s.subrange(at, at + 15)[k] == (
        #[trigger] mark[k]) by {
            assert(s[b + (23 + k)] == front[23 + k]);
        }
        assert(s.subrange(at, at + 15) =~= mark);
    }
    assert forall|i: int| 0 <= i && i != at && #[trigger] occurs_at(s, mark, i) implies i
        + mark.len() <= b by {
        lemma_title_marks(s, b, title, id, false, i);
    }
    assert forall|i: int|
        0 <= i && #[trigger] occurs_at(s, field_mark("customTitle"@, true), i) implies i
        + field_mark("customTitle"@, true).len() <= b by {
        lemma_title_marks(s, b, title, id, true, i);
    }
    assert(s[end + 0] == behind()[0]);
    lemma_string_end(s, start, title);
    assert(s.subrange(start, end) =~= e);
    lemma_member_reads_back(title_members(title, id), line, 1, title);
    lemma_unescaped(title);
    assert(s[b + 0] == front[0] && s[b + 1] == front[1]);
    lemma_last_value(s, "customTitle"@, b, at, title, 0, None);
}

/// A session that was renamed is listed under its new title, whatever stands
/// in its transcript before: the last title counts.
pub proof fn law_renamed_session_shows_its_title(
    before: Seq<char>,
    line: Seq<char>,
    title: Seq<char>,
    id: Seq<char>,
    head: Seq<char>,
    mtime: i64,
    size: i64,
    project_path: Option<Seq<char>>,
)
    requires
        is_uuid(id),
        title.len() > 0,
        is_entry_line(line, title_members(title, id)),
    ensures
        title_in(head, before + line) == Some(title),
        !is_sidechain_head(head) ==> (lite_info(
            id,
            mtime,
            size,
            head,
            before + line,
            project_path,
        ) matches Some(info) && info.custom_title == Some(title) && info.summary == title),
{
    lemma_last_title(before, line, title, id);
}

// ---------------------------------------------------------------------------
// A tag
// ---------------------------------------------------------------------------

/// The text of the entry that gives a session a tag.
proof fn lemma_tag_text(tag: Seq<char>, session_id: Seq<char>)
    requires
        is_uuid(session_id),
    ensures
        printed(Json::Object(tag_members(tag, session_id))) == "{\"type\":\"tag\",\"tag\":\""@
            + escaped(tag) + behind() + session_id + "\"}"@,
{
    lemma_three_texts("type"@, "tag"@, "tag"@, tag, "sessionId"@, session_id);
    lemma_uuid_bare(session_id);
    reveal_strlit("type");
    reveal_strlit("tag");
    reveal_strlit("sessionId");
    lemma_escaped_bare("type"@);
    lemma_escaped_bare("tag"@);
    lemma_escaped_bare("sessionId"@);
    reveal_strlit("{\"type\":\"tag\",\"tag\":\"");
    reveal_strlit("\",\"sessionId\":\"");
    reveal_strlit("\"}");
    assert(printed(Json::Object(tag_members(tag, session_id)))
        =~= "{\"type\":\"tag\",\"tag\":\""@ + escaped(tag) + behind() + session_id + "\"}"@);
}

/// The marks of tags in the line of a tag: the one before the tag, and none
/// with a space.
proof fn lemma_tag_marks(s: Seq<char>, tag: Seq<char>, id: Seq<char>, spaced: bool, i: int)
    requires
        is_uuid(id),
        is_laid_out(s, 0, "{\"type\":\"tag\",\"tag\":\""@, escaped(tag), id),
        occurs_at(s, field_mark("tag"@, spaced), i),
    ensures
        !spaced && i == 14,
{
    let e = escaped(tag);
    let mark = field_mark("tag"@, spaced);
    let front = "{\"type\":\"tag\",\"tag\":\""@;
    reveal_strlit("{\"type\":\"tag\",\"tag\":\"");
    reveal_strlit("\",\"sessionId\":\"");
    reveal_strlit("\"");
    reveal_strlit("tag");
    reveal_strlit("\":\"");
    reveal_strlit("\": \"");
    let start = 21int;
    let end = start + e.len();
    let n = mark.len() as int;
    assert(n == if spaced { 8int } else { 7int });
    assert forall|k: int| 0 <= k < n implies s[i + k] == (#[trigger] mark[k]) by {
        assert(s.subrange(i, i + n)[k] == mark[k]);
    }
    assert(s[i] == mark[0] && s[i + 1] == mark[1] && s[i + 3] == mark[3] && s[i + 4] == mark[4]
        && s[i + 5] == mark[5] && s[i + 6] == mark[6]);
    assert(mark[0] == '"' && mark[1] == 't' && mark[3] == 'g' && mark[4] == '"' && mark[5] == ':');
    let q = i + 4;
    if q < start {
        assert(s[i] == front[i]);
        assert(s[i + 1] == front[i + 1]);
        assert(s[i + 4] == front[i + 4]);
        if i + 5 < 21 {
            assert(s[i + 5] == front[i + 5]);
        }
        assert(i == 14);
        assert(s[20] == front[20]);
    } else if q < end {
        lemma_quotes_inside(s, 0, front, tag, id, q);
        assert(false);
    } else {
        lemma_quotes_behind(s, 0, front, e, id, q);
        assert(i == end + 8);
        assert(s[end + 8] == behind()[8]);
        assert(false);
    }
}

/// The tag on the line of a tag.
proof fn lemma_tag_on_line(line: Seq<char>, tag: Seq<char>, id: Seq<char>)
    requires
        is_uuid(id),
        is_entry_line(line, tag_members(tag, id)),
    ensures
        last_field(line.drop_last(), "tag"@) == Some(tag),
        "{\"type\":\"tag\""@.is_prefix_of(line.drop_last()),
        forall|k: int| 0 <= k < line.len() - 1 ==> (#[trigger] line[k]) != '\n',
        line.len() > 0 && line.last() == '\n',
{
    let s = line.drop_last();
    let e = escaped(tag);
    let mark = field_mark("tag"@, false);
    let front = "{\"type\":\"tag\",\"tag\":\""@;
    let start = 21int;
    let end = start + e.len();
    lemma_tag_text(tag, id);
    let none = Seq::<char>::empty();
    lemma_laid_out(none, front, e, id, printed(Json::Object(tag_members(tag, id))));
    assert(s =~= printed(Json::Object(tag_members(tag, id))));
    assert(none + s =~= s);
    assert(is_laid_out(s, 0, front, e, id));
    reveal_strlit("{\"type\":\"tag\",\"tag\":\"");
    reveal_strlit("{\"type\":\"tag\"");
    reveal_strlit("\",\"sessionId\":\"");
    reveal_strlit("\"");
    reveal_strlit("tag");
    reveal_strlit("\":\"");
    assert(occurs_at(s, mark, 14)) by {
        assert forall|k: int| 0 <= k < 7 implies s.subrange(14, 21)[k] == (#[trigger] mark[k]) by {
            assert(s[14 + k] == front[14 + k]);
        }
        assert(s.subrange(14, 21) =~= mark);
    }
    assert forall|i: int| 0 <= i && i != 14 && #[trigger] occurs_at(s, mark, i) implies i
        + mark.len() <= 0 by {
        lemma_tag_marks(s, tag, id, false, i);
    }
    assert forall|i: int|
        0 <= i && #[trigger] occurs_at(s, field_mark("tag"@, true), i) implies i + field_mark(
        "tag"@,
        true,
    ).len() <= 0 by {
        lemma_tag_marks(s, tag, id, true, i);
    }
    assert(s[end + 0] == behind()[0]);
    lemma_string_end(s, start, tag);
    assert(s.subrange(start, end) =~= e);
    lemma_member_reads_back(tag_members(tag, id), line, 1, tag);
    lemma_unescaped(tag);
    assert(s[0] == front[0] && s[1] == front[1]);
    lemma_last_value(s, "tag"@, 0, 14, tag, 0, None);
    let begin = "{\"type\":\"tag\""@;
    assert forall|k: int| 0 <= k < begin.len() implies begin[k] == s[k] by {
        assert(s[k] == front[k]);
    }
    lemma_escaped(tag);
    lemma_uuid_bare(id);
    assert forall|k: int| 0 <= k < line.len() - 1 implies (#[trigger] line[k]) != '\n' by {
        assert(line[k] == s[k]);
        if k < 21 {
            assert(s[k] == front[k]);
        } else if k < end {
            assert(s[start + (k - start)] == e[k - start]);
        } else if k < end + 15 {
            assert(s[end + (k - end)] == behind()[k - end]);
        } else if k < end + 51 {
            assert(s[end + 15 + (k - end - 15)] == id[k - end - 15]);
        }
    }
}

/// A session that was tagged is listed with its tag, and without one after the
/// tag was cleared, whatever stands on the lines of its transcript before: the
/// last tag counts.
pub proof fn law_tagged_session_shows_its_tag(
    before: Seq<char>,
    line: Seq<char>,
    tag: Seq<char>,
    id: Seq<char>,
    head: Seq<char>,
    mtime: i64,
    size: i64,
    project_path: Option<Seq<char>>,
)
    requires
        is_uuid(id),
        is_entry_line(line, tag_members(tag, id)),
        before.len() == 0 || before.last() == '\n',
    ensures
        tag_in(before + line) == nonempty_view(Some(tag)),
        match lite_info(id, mtime, size, head, before + line, project_path) {
            Some(info) => info.tag == nonempty_view(Some(tag)),
            None => true,
        },
{
    lemma_tag_on_line(line, tag, id);
    let p = line.drop_last();
    let none = Seq::<char>::empty();
    assert(line =~= p.push('\n'));
    assert(!p.contains('\n')) by {
        if p.contains('\n') {
            let k = choose|k: int| 0 <= k < p.len() && p[k] == '\n';
            assert(line[k] == '\n');
        }
    }
    assert(split_on(before, '\n').last() =~= none) by {
        if before.len() == 0 {
            assert(split_on(before, '\n') =~= seq![none]);
        }
    }
    lemma_split_line(before, p);
    let lines = split_on(before + line, '\n');
    let upto = split_on(before, '\n').drop_last().push(p);
    assert(lines == upto.push(none));
    assert(lines.drop_last() =~= upto);
    reveal_strlit("{\"type\":\"tag\"");
    assert(!"{\"type\":\"tag\""@.is_prefix_of(none));
    assert(last_tag_line(lines) == last_tag_line(upto));
    assert(upto.last() == p);
    assert(last_tag_line(upto) == Some(p));
    assert(tag_in(before + line) == last_full(p, "tag"@));
}

// ---------------------------------------------------------------------------
// Entries of a store
// ---------------------------------------------------------------------------

/// The text of members begins with the first of them.
proof fn lemma_first_member(m: Members, n: int)
    requires
        1 <= n <= m.len(),
    ensures
        (quoted(m[0].0) + seq![':'] + printed(m[0].1)).is_prefix_of(printed_members(m, n)),
    decreases n,
{
    reveal(printed);
    let first = quoted(m[0].0) + seq![':'] + printed(m[0].1);
    if n == 1 {
        assert(printed_members(m, 0) =~= Seq::<char>::empty());
        assert(printed_members(m, 1) =~= first);
    } else {
        lemma_first_member(m, n - 1);
        let before = printed_members(m, n - 1);
        let whole = printed_members(m, n);
        assert(whole =~= before + (comma_before(n) + quoted(m[n - 1].0) + seq![':'] + printed(
            m[n - 1].1,
        )));
        assert forall|k: int| 0 <= k < first.len() implies first[k] == whole[k] by {
            assert(first[k] == before[k]);
        }
    }
}

/// The line of a store's entry begins with the type of the entry, in whatever
/// order the store gives the fields. So the line of a tag is found as one.
pub proof fn law_lines_of_a_store_begin_with_the_type(m: Members, kind: Seq<char>)
    requires
        lookup(m, "type"@) == Some(Json::Str(kind)),
    ensures
        ("{\"type\":"@ + quoted(kind)).is_prefix_of(printed(Json::Object(hoisted(m)))),
        kind == "tag"@ ==> "{\"type\":\"tag\""@.is_prefix_of(printed(Json::Object(hoisted(m)))),
{
    let h = hoisted(m);
    let whole = printed(Json::Object(h));
    let begin = "{\"type\":"@ + quoted(kind);
    reveal_strlit("{\"type\":");
    reveal_strlit("type");
    reveal_strlit("tag");
    reveal_strlit("{\"type\":\"tag\"");
    lemma_escaped_bare("type"@);
    lemma_escaped_bare("tag"@);
    assert(h[0] == ("type"@, Json::Str(kind)));
    lemma_first_member(h, h.len() as int);
    reveal(printed);
    let inner = printed_members(h, h.len() as int);
    let first = quoted("type"@) + seq![':'] + quoted(kind);
    assert(printed(h[0].1) == quoted(kind));
    assert(whole == seq!['{'] + inner + seq!['}']);
    assert(begin =~= seq!['{'] + first);
    assert forall|k: int| 0 <= k < begin.len() implies begin[k] == whole[k] by {
        if k > 0 {
            assert(first[k - 1] == inner[k - 1]);
        }
    }
    if kind == "tag"@ {
        assert("{\"type\":\"tag\""@ =~= begin);
    }
}

/// The last field is the string behind the last mark of its key. It stands on
/// a line that begins an object with a key; marks on the lines before it do not
/// count, whatever these hold.
pub proof fn law_last_field_counts(
    before: Seq<char>,
    x: Seq<char>,
    key: Seq<char>,
    value: Seq<char>,
    y: Seq<char>,
)
    requires
        !value.contains('"') && !value.contains('\\'),
        ({
            let plain = "\""@ + key + "\":\""@;
            let wide = "\""@ + key + "\": \""@;
            let front = before + seq!['{', '"'] + x;
            let s = front + plain + value + seq!['"'] + y;
            &&& forall|i: int|
                0 <= i && i != front.len() && #[trigger] occurs_at(s, plain, i) ==> i + plain.len()
                    <= before.len()
            &&& forall|i: int|
                0 <= i && #[trigger] occurs_at(s, wide, i) ==> i + wide.len() <= before.len()
        }),
    ensures
        last_field(
            before + seq!['{', '"'] + x + ("\""@ + key + "\":\""@) + value + seq!['"'] + y,
            key,
        ) == Some(value),
{
    let plain = "\""@ + key + "\":\""@;
    let front = before + seq!['{', '"'] + x;
    let s = front + plain + value + seq!['"'] + y;
    let line = before.len() as int;
    let at = front.len() as int;
    let start = at + plain.len();
    let end = start + value.len();
    assert(s[line] == front[line] && s[line + 1] == front[line + 1]);
    assert(s.subrange(at, start) =~= plain);
    assert(occurs_at(s, plain, at));
    assert(s[end] == '"');
    assert forall|i: int| start <= i < end implies #[trigger] s[i] != '"' && s[i] != '\\' by {
        assert(s[i] == value[i - start]);
    }
    crate::sessions::lite::lemma_plain_string(s, start, end);
    assert(s.subrange(start, end) =~= value);
    lemma_last_value(s, key, line, at, value, 0, None);
}

} // verus!
