//! Server-sent events: the lines of a stream, and the data on them.
use serde_json::Value;
use vstd::prelude::*;

use crate::error::ClaudeError;
use crate::json::{json, parsed, read_value};
use crate::text::{
    after_prefix, push_text, same, split, split_on, starts_with, strip_prefix, text_view,
    text_views, trim, trimmed,
};
use crate::unicode::{decode_lossy, lossy_text};

verus! {

broadcast use vstd::string::group_string_axioms;

// ---------------------------------------------------------------------------
// Lines
// ---------------------------------------------------------------------------

/// The data on a line. Empty lines, comments, and the lines that name an
/// event, an identifier or a time to wait carry none; nor does the mark for
/// the end of a stream.
pub open spec fn event_data(line: Seq<char>) -> Option<Seq<char>> {
    match after_prefix(trimmed(line), "data: "@) {
        Some(data) => if data == "[DONE]"@ {
            None
        } else {
            Some(data)
        },
        None => None,
    }
}

/// The data on a line.
pub fn sse_data(line: &str) -> (r: Option<String>)
    ensures
        text_view(r) == event_data(line@),
{
    let bare = trim(line);
    proof {
        reveal_strlit("data: ");
        reveal_strlit(":");
    }
    if bare.as_str().is_empty() || starts_with(&bare, ":") {
        proof {
            assert("data: "@.len() == 6 && "data: "@[0] == 'd');
            if "data: "@.is_prefix_of(bare@) {
                assert(bare@[0] == 'd');
                assert(":"@[0] == ':');
            }
        }
        return None;
    }
    match strip_prefix(&bare, "data: ") {
        Some(data) => {
            if same(&data, "[DONE]") {
                None
            } else {
                Some(data)
            }
        },
        None => None,
    }
}

/// The event on a line: nothing where the line carries no data, an error where
/// the data is not JSON.
pub fn parse_sse_line(line: &str) -> (r: Option<Result<Value, ClaudeError>>)
    ensures
        match event_data(line@) {
            Some(data) => match parsed(data) {
                Some(j) => r matches Some(Ok(v)) && json(v) == j,
                None => r matches Some(Err(e)) && e is SerializationError,
            },
            None => r is None,
        },
{
    match sse_data(line) {
        Some(data) => match read_value(&data) {
            Ok(v) => Some(Ok(v)),
            Err(e) => Some(Err(ClaudeError::SerializationError(e))),
        },
        None => None,
    }
}

// ---------------------------------------------------------------------------
// Chunks
// ---------------------------------------------------------------------------

/// The lines of a stream that arrives in chunks.
#[derive(Debug)]
pub struct LineBuffer {
    buffer: String,
    lines: Vec<String>,
    line_index: usize,
}

/// The contents of a [`LineBuffer`].
pub ghost struct Lines {
    /// The lines that were not read yet.
    pub ready: Seq<Seq<char>>,
    /// The start of a line that is not complete yet.
    pub rest: Seq<char>,
}

/// The lines of a text that are complete. An end of line at the end leaves an
/// empty line.
pub open spec fn complete_lines(text: Seq<char>) -> Seq<Seq<char>> {
    if text.len() > 0 && text.last() == '\n' {
        split_on(text, '\n')
    } else {
        split_on(text, '\n').drop_last()
    }
}

/// What is left of a text after its complete lines.
pub open spec fn incomplete_line(text: Seq<char>) -> Seq<char> {
    split_on(text, '\n').last()
}

impl View for LineBuffer {
    type V = Lines;

    closed spec fn view(&self) -> Lines {
        Lines {
            ready: text_views(self.lines@).skip(self.line_index as int),
            rest: self.buffer@,
        }
    }
}

impl LineBuffer {
    #[verifier::type_invariant]
    spec fn is_placed(self) -> bool {
        self.line_index <= self.lines@.len()
    }

    /// An empty buffer.
    pub fn new() -> (r: Self)
        ensures
            r@ == (Lines { ready: Seq::empty(), rest: Seq::empty() }),
    {
        let r = LineBuffer { buffer: String::new(), lines: Vec::new(), line_index: 0 };
        proof {
            assert(text_views(r.lines@).skip(0) =~= Seq::<Seq<char>>::empty());
            assert(r.buffer@ =~= Seq::<char>::empty());
        }
        r
    }

    /// The next line, if one is ready.
    pub fn next_buffered_line(&mut self) -> (r: Option<String>)
        ensures
            match r {
                Some(line) => old(self)@.ready.len() > 0 && line@ == old(self)@.ready[0]
                    && final(self)@ == (Lines {
                    ready: old(self)@.ready.skip(1),
                    rest: old(self)@.rest,
                }),
                None => old(self)@.ready.len() == 0 && final(self)@ == old(self)@,
            },
    {
        proof {
            use_type_invariant(&*self);
        }
        let n: usize = self.lines.len();
        if self.line_index < n {
            let ghost all = text_views(self.lines@);
            let line = self.lines[self.line_index].clone();
            proof {
                assert(all.skip(self.line_index as int)[0] == line@);
                assert(all.skip(self.line_index as int).skip(1) =~= all.skip(
                    self.line_index as int + 1,
                ));
            }
            self.line_index = self.line_index + 1;
            Some(line)
        } else {
            None
        }
    }

    /// Takes the text of a chunk in: the complete lines become ready, in the
    /// place of those that were, and the rest waits for more.
    pub fn push_text(&mut self, text: &str)
        ensures
            final(self)@ == (Lines {
                ready: complete_lines(old(self)@.rest + text@),
                rest: incomplete_line(old(self)@.rest + text@),
            }),
    {
        proof {
            use_type_invariant(&*self);
        }
        let ghost all = self.buffer@ + text@;
        let mut whole = self.buffer.clone();
        push_text(&mut whole, text);
        let mut lines = split(&whole, '\n');
        proof {
            crate::text::law_join_undoes_split(all, '\n');
            assert(text_views(lines@).len() == lines@.len());
            assert(text_views(lines@).last() == lines@.last()@);
            reveal_strlit("\n");
            assert("\n"@ =~= seq!['\n']);
        }
        let ends = crate::text::ends_with(&whole, "\n");
        proof {
            if ends {
                assert(all.len() >= 1);
                assert(all.last() == '\n') by {
                    assert(all.subrange(all.len() - 1, all.len() as int) =~= "\n"@);
                    assert(all.subrange(all.len() - 1, all.len() as int)[0] == '\n');
                }
            } else if all.len() > 0 && all.last() == '\n' {
                assert("\n"@.is_suffix_of(all)) by {
                    assert(all.subrange(all.len() - 1, all.len() as int) =~= "\n"@);
                }
            }
        }
        if ends {
            self.buffer = String::new();
            proof {
                assert(incomplete_line(all) =~= Seq::<char>::empty());
                assert(self.buffer@ =~= Seq::<char>::empty());
            }
        } else {
            let ghost before = lines@;
            match lines.pop() {
                Some(last) => {
                    self.buffer = last;
                },
                None => {},
            }
            proof {
                assert(text_views(lines@) =~= text_views(before).drop_last());
            }
        }
        self.line_index = 0;
        self.lines = lines;
        proof {
            assert(text_views(self.lines@).skip(0) =~= text_views(self.lines@));
        }
    }

    /// Takes a chunk in. Bytes that are no UTF-8 become replacement
    /// characters.
    pub fn push_chunk(&mut self, bytes: &[u8])
        ensures
            final(self)@ == (Lines {
                ready: complete_lines(old(self)@.rest + lossy_text(bytes@)),
                rest: incomplete_line(old(self)@.rest + lossy_text(bytes@)),
            }),
    {
        let text = decode_lossy(bytes);
        self.push_text(&text);
    }

    /// Ends the stream: what waits becomes a last line. Tells whether there
    /// was anything.
    pub fn finish(&mut self) -> (r: bool)
        ensures
            r == (old(self)@.rest.len() > 0),
            r ==> final(self)@ == (Lines {
                ready: split_on(old(self)@.rest, '\n'),
                rest: Seq::empty(),
            }),
            !r ==> final(self)@ == old(self)@,
    {
        if self.buffer.as_str().is_empty() {
            return false;
        }
        let lines = split(&self.buffer, '\n');
        self.line_index = 0;
        self.lines = lines;
        self.buffer = String::new();
        proof {
            assert(self.buffer@ =~= Seq::<char>::empty());
            assert(text_views(self.lines@).skip(0) =~= text_views(self.lines@));
        }
        true
    }
}

// ---------------------------------------------------------------------------
// Chunks do not matter
// ---------------------------------------------------------------------------

/// Texts one after the other.
pub open spec fn joined_chunks(chunks: Seq<Seq<char>>) -> Seq<char>
    decreases chunks.len(),
{
    if chunks.len() == 0 {
        Seq::empty()
    } else {
        joined_chunks(chunks.drop_last()) + chunks.last()
    }
}

/// The lines that were ready after each chunk, and what waits after the last.
pub open spec fn lines_of_chunks(chunks: Seq<Seq<char>>) -> Lines
    decreases chunks.len(),
{
    if chunks.len() == 0 {
        Lines { ready: Seq::empty(), rest: Seq::empty() }
    } else {
        let before = lines_of_chunks(chunks.drop_last());
        Lines {
            ready: before.ready + complete_lines(before.rest + chunks.last()),
            rest: incomplete_line(before.rest + chunks.last()),
        }
    }
}

/// Lines that are not empty.
pub open spec fn written_lines(lines: Seq<Seq<char>>) -> Seq<Seq<char>> {
    lines.filter(|l: Seq<char>| l.len() > 0)
}

/// What follows a text goes to its last piece.
proof fn lemma_split_concat(s: Seq<char>, t: Seq<char>)
    ensures
        split_on(s, '\n').len() > 0,
        split_on(s + t, '\n') == split_on(s, '\n').drop_last() + split_on(
            split_on(s, '\n').last() + t,
            '\n',
        ),
    decreases t.len(),
{
    crate::text::law_join_undoes_split(s, '\n');
    let a = split_on(s, '\n');
    let last = a.last();
    if t.len() == 0 {
        assert(s + t =~= s);
        assert(last + t =~= last);
        lemma_one_piece(last);
        assert(a =~= a.drop_last() + seq![last]);
    } else {
        let u = t.drop_last();
        lemma_split_concat(s, u);
        assert((s + t).drop_last() =~= s + u);
        assert((last + t).drop_last() =~= last + u);
        crate::text::law_join_undoes_split(last + u, '\n');
        let inner = split_on(last + u, '\n');
        let outer = split_on(s + u, '\n');
        assert(outer.last() == inner.last());
        assert(outer.drop_last() =~= a.drop_last() + inner.drop_last());
        assert(split_on(s + t, '\n') =~= a.drop_last() + split_on(last + t, '\n'));
    }
}

/// A text without an end of line is one piece.
proof fn lemma_one_piece(s: Seq<char>)
    requires
        !s.contains('\n'),
    ensures
        split_on(s, '\n') == seq![s],
    decreases s.len(),
{
    if s.len() > 0 {
        let t = s.drop_last();
        assert(s[s.len() - 1] == s.last());
        assert(!t.contains('\n')) by {
            if t.contains('\n') {
                let i = choose|i: int| 0 <= i < t.len() && t[i] == '\n';
                assert(s[i] == '\n');
            }
        }
        lemma_one_piece(t);
        assert(t.push(s.last()) =~= s);
        assert(split_on(s, '\n') =~= seq![s]);
    } else {
        assert(s =~= Seq::<char>::empty());
        assert(split_on(s, '\n') =~= seq![s]);
    }
}

/// Empty lines at the end do not count.
proof fn lemma_written_step(lines: Seq<Seq<char>>, line: Seq<char>)
    ensures
        written_lines(lines.push(line)) == if line.len() > 0 {
            written_lines(lines).push(line)
        } else {
            written_lines(lines)
        },
{
    reveal(Seq::filter);
    assert(lines.push(line).drop_last() =~= lines);
}

/// The lines of two lists are those of the first and those of the second.
proof fn lemma_written_concat(a: Seq<Seq<char>>, b: Seq<Seq<char>>)
    ensures
        written_lines(a + b) == written_lines(a) + written_lines(b),
    decreases b.len(),
{
    reveal(Seq::filter);
    if b.len() == 0 {
        assert(a + b =~= a);
        assert(written_lines(a) + written_lines(b) =~= written_lines(a));
    } else {
        let c = b.drop_last();
        lemma_written_concat(a, c);
        assert(a + b =~= (a + c).push(b.last()));
        assert(b =~= c.push(b.last()));
        lemma_written_step(a + c, b.last());
        lemma_written_step(c, b.last());
        assert(written_lines(a + b) =~= written_lines(a) + written_lines(b));
    }
}

/// What a text leaves behind its complete lines.
proof fn lemma_written_complete(text: Seq<char>)
    ensures
        written_lines(complete_lines(text)) == written_lines(split_on(text, '\n').drop_last()),
        !incomplete_line(text).contains('\n'),
{
    crate::text::law_join_undoes_split(text, '\n');
    let pieces = split_on(text, '\n');
    assert(pieces =~= pieces.drop_last().push(pieces.last()));
    if text.len() > 0 && text.last() == '\n' {
        lemma_written_step(pieces.drop_last(), pieces.last());
    }
    assert(!pieces[pieces.len() - 1].contains('\n'));
}

/// Where a text is cut into chunks does not matter: the lines that carry
/// something are those of the whole text.
pub proof fn law_chunks_do_not_matter(chunks: Seq<Seq<char>>)
    ensures
        written_lines(lines_of_chunks(chunks).ready + split_on(lines_of_chunks(chunks).rest, '\n'))
            == written_lines(split_on(joined_chunks(chunks), '\n')),
{
    lemma_chunks(chunks);
    let all = joined_chunks(chunks);
    let l = lines_of_chunks(chunks);
    crate::text::law_join_undoes_split(all, '\n');
    let pieces = split_on(all, '\n');
    assert(!pieces[pieces.len() - 1].contains('\n'));
    lemma_one_piece(l.rest);
    lemma_written_concat(l.ready, seq![l.rest]);
    lemma_written_concat(pieces.drop_last(), seq![pieces.last()]);
    assert(pieces =~= pieces.drop_last() + seq![pieces.last()]);
}

/// What waits is the last piece of the whole text, and the lines that were
/// ready are the other pieces.
proof fn lemma_chunks(chunks: Seq<Seq<char>>)
    ensures
        lines_of_chunks(chunks).rest == split_on(joined_chunks(chunks), '\n').last(),
        written_lines(lines_of_chunks(chunks).ready) == written_lines(
            split_on(joined_chunks(chunks), '\n').drop_last(),
        ),
    decreases chunks.len(),
{
    reveal(Seq::filter);
    if chunks.len() == 0 {
        let none = Seq::<char>::empty();
        assert(split_on(none, '\n') =~= seq![none]);
        assert(split_on(none, '\n').drop_last() =~= Seq::<Seq<char>>::empty());
    } else {
        let front = chunks.drop_last();
        lemma_chunks(front);
        let s = joined_chunks(front);
        let t = chunks.last();
        let before = lines_of_chunks(front);
        lemma_split_concat(s, t);
        let a = split_on(s, '\n');
        let text = before.rest + t;
        crate::text::law_join_undoes_split(text, '\n');
        let b = split_on(text, '\n');
        lemma_written_complete(text);
        lemma_written_concat(before.ready, complete_lines(text));
        lemma_written_concat(a.drop_last(), b.drop_last());
        let whole = split_on(s + t, '\n');
        assert(whole == a.drop_last() + b);
        assert(whole.drop_last() =~= a.drop_last() + b.drop_last());
        assert(whole.last() == b.last());
    }
}

/// A line carries data behind `data: `, white space at its ends aside, but for
/// the mark of the end of a stream. Any other line carries none.
pub proof fn law_lines_with_data(line: Seq<char>, data: Seq<char>)
    ensures
        trimmed(line) == "data: "@ + data && data != "[DONE]"@ ==> event_data(line) == Some(data),
        trimmed(line) == "data: [DONE]"@ ==> event_data(line) is None,
        !"data: "@.is_prefix_of(trimmed(line)) ==> event_data(line) is None,
{
    let mark = "data: "@;
    reveal_strlit("data: ");
    reveal_strlit("data: [DONE]");
    reveal_strlit("[DONE]");
    assert((mark + data).skip(mark.len() as int) =~= data);
    assert(mark.is_prefix_of(mark + data));
    assert("data: [DONE]"@ =~= mark + "[DONE]"@);
    assert((mark + "[DONE]"@).skip(mark.len() as int) =~= "[DONE]"@);
}

/// Of a text that ends a line all pieces are ready, the empty one behind the
/// last end of line among them, and nothing waits. Of another text the piece
/// behind the last end of line waits, and the pieces before it are ready.
pub proof fn law_ready_lines(text: Seq<char>)
    ensures
        !incomplete_line(text).contains('\n'),
        forall|i: int|
            0 <= i < complete_lines(text).len() ==> !(#[trigger] complete_lines(text)[i]).contains(
                '\n',
            ),
        text.len() > 0 && text.last() == '\n' ==> {
            &&& crate::text::joined(complete_lines(text), seq!['\n']) == text
            &&& incomplete_line(text).len() == 0
        },
        text.len() == 0 || text.last() != '\n' ==> crate::text::joined(
            complete_lines(text).push(incomplete_line(text)),
            seq!['\n'],
        ) == text,
{
    let pieces = split_on(text, '\n');
    crate::text::law_join_undoes_split(text, '\n');
    assert(pieces.drop_last().push(pieces.last()) =~= pieces);
    if text.len() > 0 && text.last() == '\n' {
        assert(pieces.last() =~= Seq::<char>::empty());
    }
}

} // verus!
