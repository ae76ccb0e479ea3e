//! The first meaningful prompt of a session.
use serde_json::{Map as JsonMap, Value};
use vstd::prelude::*;

use crate::json::{
    get_object, get_text, json, lookup, members, object_field, text_field, Json,
    Members,
};
use crate::text::{
    contains_text, ends_with, find_from, find_pos, from_range, has_text, replace_char, replaced,
    starts_with, text_views, to_chars, trim, trim_end, trimmed, trimmed_end,
};

verus! {

broadcast use vstd::string::group_string_axioms;

/// Prompts longer than this many characters are cut.
pub const MAX_PROMPT_CHARS: usize = 200;

/// A text of a message on one line, without white space at its ends.
pub open spec fn prompt_line(raw: Seq<char>) -> Seq<char> {
    trimmed(replaced(raw, '\n', ' '))
}

/// The payload of the first `<command-name>` element of a text.
pub open spec fn command_name_in(s: Seq<char>) -> Option<Seq<char>> {
    match find_from(s, "<command-name>"@, 0) {
        Some(i) => {
            let start = i + "<command-name>"@.len();
            match find_from(s, "</command-name>"@, start) {
                Some(end) => Some(s.subrange(start, end)),
                None => None,
            }
        },
        None => None,
    }
}

/// Whether a text begins with `open` and ends with `close`, white space at
/// its ends aside.
pub open spec fn is_wrapped(s: Seq<char>, open: Seq<char>, close: Seq<char>) -> bool {
    open.is_prefix_of(trimmed(s)) && close.is_suffix_of(trimmed(s))
}

/// Whether a text begins with the note that a request was interrupted.
pub open spec fn is_interruption(s: Seq<char>) -> bool {
    let note = "[Request interrupted by user"@;
    note.is_prefix_of(s) && s.skip(note.len() as int).contains(']')
}

/// Whether a text is no prompt of a user: the output of a command, a hook, a
/// tick, a goal, an interruption, or what an editor adds.
pub open spec fn is_generated(s: Seq<char>) -> bool {
    ||| "<local-command-stdout>"@.is_prefix_of(s)
    ||| "<session-start-hook>"@.is_prefix_of(s)
    ||| "<tick>"@.is_prefix_of(s)
    ||| "<goal>"@.is_prefix_of(s)
    ||| is_interruption(s)
    ||| is_wrapped(s, "<ide_opened_file>"@, "</ide_opened_file>"@)
    ||| is_wrapped(s, "<ide_selection>"@, "</ide_selection>"@)
}

/// A prompt, cut to [`MAX_PROMPT_CHARS`] characters and an ellipsis.
pub open spec fn shortened(s: Seq<char>) -> Seq<char> {
    if s.len() > MAX_PROMPT_CHARS {
        trimmed_end(s.take(MAX_PROMPT_CHARS as int)).push('\u{2026}')
    } else {
        s
    }
}

/// What a text of a user's message is.
pub ghost enum TextKind {
    /// Nothing to show: blank, or generated.
    Skipped,
    /// A slash command with this name.
    Command(Seq<char>),
    /// A prompt, shortened.
    Prompt(Seq<char>),
}

/// What a text of a user's message is.
pub open spec fn text_kind(raw: Seq<char>) -> TextKind {
    let s = prompt_line(raw);
    if s.len() == 0 {
        TextKind::Skipped
    } else {
        match command_name_in(s) {
            Some(name) => TextKind::Command(name),
            None => if is_generated(s) {
                TextKind::Skipped
            } else {
                TextKind::Prompt(shortened(s))
            },
        }
    }
}

/// What a text of a user's message is.
#[derive(Debug)]
pub enum PromptText {
    /// Nothing to show: blank, or generated.
    Skipped,
    /// A slash command with this name.
    Command(String),
    /// A prompt, shortened.
    Prompt(String),
}

impl View for PromptText {
    type V = TextKind;

    open spec fn view(&self) -> TextKind {
        match self {
            PromptText::Skipped => TextKind::Skipped,
            PromptText::Command(c) => TextKind::Command(c@),
            PromptText::Prompt(p) => TextKind::Prompt(p@),
        }
    }
}

/// Extracts the `<command-name>NAME</command-name>` payload, if present.
pub fn extract_command_name(text: &str) -> (r: Option<String>)
    ensures
        crate::text::text_view(r) == command_name_in(text@),
{
    let s = to_chars(text);
    let open = to_chars("<command-name>");
    let close = to_chars("</command-name>");
    match find_pos(&s, &open, 0) {
        Some(i) => {
            proof {
                crate::text::lemma_find_from(s@, open@, 0);
            }
            let n: usize = s.len();
            proof {
                assert(i + open@.len() <= n);
            }
            let start: usize = i + open.len();
            match find_pos(&s, &close, start) {
                Some(end) => {
                    proof {
                        crate::text::lemma_find_from(s@, close@, start as int);
                    }
                    Some(from_range(&s, start, end))
                },
                None => None,
            }
        },
        None => None,
    }
}

/// Whether a text begins with the note that a request was interrupted.
fn check_interruption(s: &str) -> (r: bool)
    ensures
        r == is_interruption(s@),
{
    match crate::text::strip_prefix(s, "[Request interrupted by user") {
        Some(rest) => crate::sessions::key::has_char(&rest, ']'),
        None => false,
    }
}

/// Returns `true` if `result` marks an auto-generated message to skip when
/// looking for the first meaningful user prompt.
pub fn is_skip_first_prompt(result: &str) -> (r: bool)
    ensures
        r == is_generated(result@),
{
    if starts_with(result, "<local-command-stdout>") || starts_with(result, "<session-start-hook>")
        || starts_with(result, "<tick>") || starts_with(result, "<goal>") {
        return true;
    }
    if check_interruption(result) {
        return true;
    }
    let bare = trim(result);
    (starts_with(&bare, "<ide_opened_file>") && ends_with(&bare, "</ide_opened_file>")) || (
    starts_with(&bare, "<ide_selection>") && ends_with(&bare, "</ide_selection>"))
}

/// Truncates a prompt to [`MAX_PROMPT_CHARS`] characters, appending an
/// ellipsis.
pub fn truncate_prompt(result: &str) -> (r: String)
    ensures
        r@ == shortened(result@),
{
    let s = to_chars(result);
    if s.len() > MAX_PROMPT_CHARS {
        let head = from_range(&s, 0, MAX_PROMPT_CHARS);
        proof {
            assert(s@.subrange(0, MAX_PROMPT_CHARS as int) =~= s@.take(MAX_PROMPT_CHARS as int));
        }
        let mut r = trim_end(&head);
        r.push('\u{2026}');
        r
    } else {
        crate::text::from_chars(&s)
    }
}

/// What a text of a user's message is.
pub fn classify_text(raw: &str) -> (r: PromptText)
    ensures
        r@ == text_kind(raw@),
{
    let line = replace_char(raw, '\n', ' ');
    let result = trim(&line);
    let s = to_chars(&result);
    if s.len() == 0 {
        return PromptText::Skipped;
    }
    match extract_command_name(&result) {
        Some(name) => PromptText::Command(name),
        None => {
            if is_skip_first_prompt(&result) {
                PromptText::Skipped
            } else {
                PromptText::Prompt(truncate_prompt(&result))
            }
        },
    }
}

// ---------------------------------------------------------------------------
// The texts of a message
// ---------------------------------------------------------------------------

/// The text of a content block, where it is a text block.
pub open spec fn block_text(block: Json) -> Option<Seq<char>> {
    match block {
        Json::Object(b) => if text_field(b, "type"@) == Some("text"@) {
            text_field(b, "text"@)
        } else {
            None
        },
        _ => None,
    }
}

/// The texts of the text blocks among content blocks.
pub open spec fn block_texts(blocks: Seq<Json>) -> Seq<Seq<char>>
    decreases blocks.len(),
{
    if blocks.len() == 0 {
        Seq::empty()
    } else {
        let before = block_texts(blocks.drop_last());
        match block_text(blocks.last()) {
            Some(t) => before.push(t),
            None => before,
        }
    }
}

/// The texts of the message of an entry: its content where that is a text,
/// or the texts of its text blocks.
pub open spec fn message_texts(entry: Members) -> Seq<Seq<char>> {
    match object_field(entry, "message"@) {
        Some(message) => match lookup(message, "content"@) {
            Some(Json::Str(s)) => seq![s],
            Some(Json::Array(blocks)) => block_texts(blocks),
            _ => Seq::empty(),
        },
        None => Seq::empty(),
    }
}

/// The text of a content block, where it is a text block.
fn read_block_text(block: &Value) -> (r: Option<String>)
    ensures
        crate::text::text_view(r) == block_text(json(*block)),
{
    match block.as_object() {
        Some(b) => {
            if crate::json::field_is(b, "type", "text") {
                match get_text(b, "text") {
                    Some(t) => Some(t.to_owned()),
                    None => None,
                }
            } else {
                None
            }
        },
        None => None,
    }
}

/// The texts of the message of an entry.
pub fn entry_text_blocks(entry: &JsonMap<String, Value>) -> (r: Vec<String>)
    ensures
        text_views(r@) == message_texts(members(*entry)),
{
    let mut texts: Vec<String> = Vec::new();
    proof {
        assert(text_views(texts@) =~= Seq::<Seq<char>>::empty());
    }
    let message = match get_object(entry, "message") {
        Some(m) => m,
        None => return texts,
    };
    match crate::json::get(message, "content") {
        Some(content) => {
            match content.as_str() {
                Some(s) => {
                    texts.push(s.to_owned());
                    proof {
                        assert(text_views(texts@) =~= seq![s@]);
                    }
                    return texts;
                },
                None => {},
            }
            match content.as_array() {
                Some(blocks) => {
                    let ghost all = crate::json::jsons(blocks@);
                    let mut i: usize = 0;
                    proof {
                        assert(all.take(0) =~= Seq::<Json>::empty());
                    }
                    while i < blocks.len()
                        invariant
                            all == crate::json::jsons(blocks@),
                            i <= blocks@.len(),
                            text_views(texts@) == block_texts(all.take(i as int)),
                        decreases blocks@.len() - i,
                    {
                        let ghost were = texts@;
                        proof {
                            assert(all.take(i as int + 1).drop_last() =~= all.take(i as int));
                            assert(all.take(i as int + 1).last() == json(blocks@[i as int]));
                        }
                        match read_block_text(&blocks[i]) {
                            Some(t) => {
                                texts.push(t);
                                proof {
                                    assert(text_views(texts@) =~= text_views(were).push(t@));
                                }
                            },
                            None => {},
                        }
                        i = i + 1;
                    }
                    proof {
                        assert(all.take(all.len() as int) =~= all);
                    }
                },
                None => {},
            }
        },
        None => {},
    }
    texts
}

// ---------------------------------------------------------------------------
// The first prompt among texts
// ---------------------------------------------------------------------------

/// The first prompt among texts, and the name of the first slash command
/// before it, where `fallback` holds none yet.
pub open spec fn first_prompt(texts: Seq<Seq<char>>, fallback: Seq<char>) -> (
    Option<Seq<char>>,
    Seq<char>,
)
    decreases texts.len(),
{
    if texts.len() == 0 {
        (None, fallback)
    } else {
        match text_kind(texts[0]) {
            TextKind::Prompt(p) => (Some(p), fallback),
            TextKind::Command(c) => first_prompt(
                texts.skip(1),
                if fallback.len() == 0 {
                    c
                } else {
                    fallback
                },
            ),
            TextKind::Skipped => first_prompt(texts.skip(1), fallback),
        }
    }
}

/// Looks for the first prompt among texts. The second result is `fallback`,
/// or where that is empty the name of the first slash command before the
/// prompt.
pub fn find_first_prompt(texts: &Vec<String>, fallback: String) -> (r: (Option<String>, String))
    ensures
        (crate::text::text_view(r.0), r.1@) == first_prompt(text_views(texts@), fallback@),
{
    let mut fb = fallback;
    let ghost all = text_views(texts@);
    let mut i: usize = 0;
    proof {
        assert(all.skip(0) =~= all);
    }
    while i < texts.len()
        invariant
            all == text_views(texts@),
            i <= texts@.len(),
            first_prompt(all, fallback@) == first_prompt(all.skip(i as int), fb@),
        decreases texts@.len() - i,
    {
        proof {
            assert(all.skip(i as int)[0] == texts@[i as int]@);
            assert(all.skip(i as int).skip(1) =~= all.skip(i as int + 1));
        }
        match classify_text(&texts[i]) {
            PromptText::Prompt(p) => {
                return (Some(p), fb);
            },
            PromptText::Command(c) => {
                let n = to_chars(&fb);
                if n.len() == 0 {
                    fb = c;
                }
            },
            PromptText::Skipped => {},
        }
        i = i + 1;
    }
    (None, fb)
}

// ---------------------------------------------------------------------------
// The first prompt of a transcript
// ---------------------------------------------------------------------------

/// Whether a line of a transcript may hold a prompt, by a look at its text.
pub open spec fn may_hold_prompt(line: Seq<char>) -> bool {
    &&& has_text(line, "\"type\":\"user\""@) || has_text(line, "\"type\": \"user\""@)
    &&& !has_text(line, "\"tool_result\""@)
    &&& !has_text(line, "\"isMeta\":true"@) && !has_text(line, "\"isMeta\": true"@)
    &&& !has_text(line, "\"isCompactSummary\":true"@) && !has_text(
        line,
        "\"isCompactSummary\": true"@,
    )
}

/// The texts in which a line of a transcript may hold a prompt, where the
/// line reads as the value `value`.
pub open spec fn user_texts(value: Option<Json>) -> Seq<Seq<char>> {
    match value {
        Some(Json::Object(entry)) => if text_field(entry, "type"@) == Some("user"@) {
            message_texts(entry)
        } else {
            Seq::empty()
        },
        _ => Seq::empty(),
    }
}

/// The texts in which a line of a transcript may hold a prompt.
pub open spec fn line_texts(line: Seq<char>) -> Seq<Seq<char>> {
    if may_hold_prompt(line) {
        user_texts(crate::json::parsed(line))
    } else {
        Seq::empty()
    }
}

/// The first prompt among the lines of a transcript, or else the name of the
/// first slash command, or else `fallback`.
pub open spec fn first_prompt_of(lines: Seq<Seq<char>>, fallback: Seq<char>) -> Seq<char>
    decreases lines.len(),
{
    if lines.len() == 0 {
        fallback
    } else {
        match first_prompt(line_texts(lines[0]), fallback) {
            (Some(p), _) => p,
            (None, fb) => first_prompt_of(lines.skip(1), fb),
        }
    }
}

/// Whether a line of a transcript may hold a prompt, by a look at its text.
fn check_line(line: &str) -> (r: bool)
    ensures
        r == may_hold_prompt(line@),
{
    if !contains_text(line, "\"type\":\"user\"") && !contains_text(line, "\"type\": \"user\"") {
        return false;
    }
    if contains_text(line, "\"tool_result\"") {
        return false;
    }
    if contains_text(line, "\"isMeta\":true") || contains_text(line, "\"isMeta\": true") {
        return false;
    }
    !contains_text(line, "\"isCompactSummary\":true") && !contains_text(
        line,
        "\"isCompactSummary\": true",
    )
}

/// The texts in which a line of a transcript may hold a prompt, where the
/// line reads as the value `value`.
pub fn prompt_candidates(value: Option<Value>) -> (r: Vec<String>)
    ensures
        text_views(r@) == user_texts(crate::json::json_view(value)),
{
    match &value {
        Some(v) => match v.as_object() {
            Some(entry) => {
                if crate::json::field_is(entry, "type", "user") {
                    return entry_text_blocks(entry);
                }
            },
            None => {},
        },
        None => {},
    }
    let none: Vec<String> = Vec::new();
    proof {
        assert(text_views(none@) =~= Seq::<Seq<char>>::empty());
    }
    none
}

/// Extracts the first meaningful user prompt from the head of a transcript.
///
/// Skips tool results, meta messages, compact summaries, slash commands and
/// auto-generated texts. Without a prompt, gives the name of the first slash
/// command, or the empty text.
pub fn extract_first_prompt_from_head(head: &str) -> (r: String)
    ensures
        r@ == first_prompt_of(crate::text::split_on(head@, '\n'), Seq::empty()),
{
    let lines = crate::text::split(head, '\n');
    let ghost all = crate::text::split_on(head@, '\n');
    let mut fb = String::new();
    let mut i: usize = 0;
    proof {
        assert(all.skip(0) =~= all);
        assert(fb@ =~= Seq::<char>::empty());
    }
    while i < lines.len()
        invariant
            all == text_views(lines@),
            all == crate::text::split_on(head@, '\n'),
            i <= lines@.len(),
            first_prompt_of(all, Seq::empty()) == first_prompt_of(all.skip(i as int), fb@),
        decreases lines@.len() - i,
    {
        let ghost line = lines@[i as int]@;
        proof {
            assert(all.skip(i as int)[0] == line);
            assert(all.skip(i as int).skip(1) =~= all.skip(i as int + 1));
        }
        if check_line(&lines[i]) {
            let texts = prompt_candidates(crate::json::parse(&lines[i]));
            match find_first_prompt(&texts, fb) {
                (Some(p), _) => {
                    return p;
                },
                (None, next) => {
                    fb = next;
                },
            }
        }
        i = i + 1;
    }
    fb
}

// ---------------------------------------------------------------------------
// What a prompt is
// ---------------------------------------------------------------------------

/// What begins or frames a text that was generated.
pub open spec fn is_marked(s: Seq<char>) -> bool {
    let bare = trimmed(s);
    let note = "[Request interrupted by user"@;
    ||| "<local-command-stdout>"@.is_prefix_of(s)
    ||| "<session-start-hook>"@.is_prefix_of(s)
    ||| "<tick>"@.is_prefix_of(s)
    ||| "<goal>"@.is_prefix_of(s)
    ||| note.is_prefix_of(s) && exists|i: int| note.len() <= i < s.len() && #[trigger] s[i] == ']'
    ||| "<ide_opened_file>"@.is_prefix_of(bare) && "</ide_opened_file>"@.is_suffix_of(bare)
    ||| "<ide_selection>"@.is_prefix_of(bare) && "</ide_selection>"@.is_suffix_of(bare)
}

/// A text of a user is read on one line, without white space at its ends.
/// Where the line has a command's name in its tags, the first such name is
/// what the text is. Else a blank or generated line is skipped, and any other
/// is a prompt: as it is up to 200 characters, and from there on its first 200
/// without the white space at their end, and an ellipsis.
pub proof fn law_texts_of_a_user(raw: Seq<char>)
    ensures
        ({
            let s = trimmed(
                Seq::new(
                    raw.len(),
                    |i: int|
                        if raw[i] == '\n' {
                            ' '
                        } else {
                            raw[i]
                        },
                ),
            );
            let start = "<command-name>"@;
            let end = "</command-name>"@;
            match text_kind(raw) {
                TextKind::Command(name) => exists|i: int|
                    #![trigger crate::text::occurs_at(s, start, i)]
                    crate::text::occurs_at(s, start, i) && crate::text::occurs_at(
                        s,
                        end,
                        i + start.len() + name.len(),
                    ) && s.subrange(i + start.len(), i + start.len() + name.len()) == name
                        && !has_text(s.take(i + start.len() - 1), start) && !has_text(name, end),
                TextKind::Prompt(p) => {
                    &&& s.len() > 0 && !is_marked(s)
                    &&& s.len() <= 200 ==> p == s
                    &&& s.len() > 200 ==> p == trimmed_end(s.take(200)).push('\u{2026}')
                },
                TextKind::Skipped => s.len() == 0 || is_marked(s),
            }
        }),
        ({
            let s = prompt_line(raw);
            !(text_kind(raw) is Command) ==> forall|i: int, j: int|
                #![trigger crate::text::occurs_at(s, "<command-name>"@, i), crate::text::occurs_at(s, "</command-name>"@, j)]
                crate::text::occurs_at(s, "<command-name>"@, i) && i + "<command-name>"@.len() <= j
                    ==> !crate::text::occurs_at(s, "</command-name>"@, j) || exists|k: int|
                    k < i && #[trigger] crate::text::occurs_at(s, "<command-name>"@, k)
        }),
{
    let s = prompt_line(raw);
    assert(replaced(raw, '\n', ' ') =~= Seq::new(
        raw.len(),
        |i: int|
            if raw[i] == '\n' {
                ' '
            } else {
                raw[i]
            },
    ));
    let start = "<command-name>"@;
    let end = "</command-name>"@;
    reveal_strlit("<command-name>");
    crate::text::lemma_find_from(s, start, 0);
    law_generated_texts(s);
    if let Some(i) = find_from(s, start, 0) {
        let from = i + start.len();
        crate::text::lemma_find_from(s, end, from);
        if let Some(j) = find_from(s, end, from) {
            let name = s.subrange(from, j);
            assert(s.subrange(from, from + name.len()) =~= name);
            let cut = s.take(from - 1);
            if has_text(cut, start) {
                let k = choose|k: int| crate::text::occurs_at(cut, start, k);
                assert(s.subrange(k, k + start.len()) =~= cut.subrange(k, k + start.len()));
                assert(crate::text::occurs_at(s, start, k));
            }
            if has_text(name, end) {
                let k = choose|k: int| crate::text::occurs_at(name, end, k);
                assert(s.subrange(from + k, from + k + end.len()) =~= name.subrange(
                    k,
                    k + end.len(),
                ));
                assert(crate::text::occurs_at(s, end, from + k));
                reveal_strlit("</command-name>");
            }
            if s.len() > 0 {
                assert(text_kind(raw) == TextKind::Command(name));
                assert(crate::text::occurs_at(s, start, i));
            }
        }
    }
}

/// A text is generated where it has one of these marks. An interruption has
/// its bracket behind the note.
pub proof fn law_generated_texts(s: Seq<char>)
    ensures
        is_generated(s) == is_marked(s),
{
    let note = "[Request interrupted by user"@;
    if note.is_prefix_of(s) {
        let n = note.len() as int;
        if s.skip(n).contains(']') {
            let i = choose|i: int| 0 <= i < s.skip(n).len() && s.skip(n)[i] == ']';
            assert(s[n + i] == ']');
        }
        if exists|i: int| note.len() <= i < s.len() && #[trigger] s[i] == ']' {
            let i = choose|i: int| note.len() <= i < s.len() && #[trigger] s[i] == ']';
            assert(s.skip(n)[i - n] == ']');
        }
    }
}

/// All texts in which the lines of a transcript may hold a prompt.
pub open spec fn texts_on(lines: Seq<Seq<char>>) -> Seq<Seq<char>>
    decreases lines.len(),
{
    if lines.len() == 0 {
        Seq::empty()
    } else {
        line_texts(lines[0]) + texts_on(lines.skip(1))
    }
}

/// The first prompt of a transcript is the first of its users' texts that is
/// one, whatever follows it and whatever commands came before. Where none is
/// one, it is the first command with a name, or else what was given.
pub proof fn law_first_prompt_is_the_first(
    lines: Seq<Seq<char>>,
    fallback: Seq<char>,
    i: int,
)
    requires
        0 <= i <= texts_on(lines).len(),
        i < texts_on(lines).len() ==> text_kind(texts_on(lines)[i]) is Prompt,
        forall|j: int| 0 <= j < i ==> !(text_kind(#[trigger] texts_on(lines)[j]) is Prompt),
    ensures
        i < texts_on(lines).len() ==> TextKind::Prompt(first_prompt_of(lines, fallback))
            == text_kind(texts_on(lines)[i]),
        i == texts_on(lines).len() && fallback.len() > 0 ==> first_prompt_of(lines, fallback)
            == fallback,
        i == texts_on(lines).len() && fallback.len() == 0 ==> forall|k: int|
            0 <= k < i && (forall|j: int|
                0 <= j < k ==> (text_kind(#[trigger] texts_on(lines)[j]) matches TextKind::Command(
                    c,
                ) ==> c.len() == 0)) && (text_kind(#[trigger] texts_on(lines)[k]) matches
                TextKind::Command(c) && c.len() > 0) ==> TextKind::Command(
                first_prompt_of(lines, fallback),
            ) == text_kind(texts_on(lines)[k]),
        i == texts_on(lines).len() && fallback.len() == 0 && (forall|j: int|
            0 <= j < i ==> (text_kind(#[trigger] texts_on(lines)[j]) matches TextKind::Command(c)
                ==> c.len() == 0)) ==> first_prompt_of(lines, fallback).len() == 0,
{
    lemma_flat(lines, fallback);
    lemma_first_prompt(texts_on(lines), fallback, i);
}

/// Lines are searched text by text.
proof fn lemma_flat(lines: Seq<Seq<char>>, fallback: Seq<char>)
    ensures
        first_prompt_of(lines, fallback) == (match first_prompt(texts_on(lines), fallback) {
            (Some(p), _) => p,
            (None, fb) => fb,
        }),
    decreases lines.len(),
{
    if lines.len() > 0 {
        let a = line_texts(lines[0]);
        let b = texts_on(lines.skip(1));
        lemma_prompts_join(a, b, fallback);
        let (p, fb) = first_prompt(a, fallback);
        if p is None {
            lemma_flat(lines.skip(1), fb);
        }
    }
}

/// Texts are searched one after the other.
proof fn lemma_prompts_join(a: Seq<Seq<char>>, b: Seq<Seq<char>>, fallback: Seq<char>)
    ensures
        first_prompt(a + b, fallback) == (match first_prompt(a, fallback) {
            (Some(p), fb) => (Some(p), fb),
            (None, fb) => first_prompt(b, fb),
        }),
    decreases a.len(),
{
    if a.len() > 0 {
        assert((a + b)[0] == a[0]);
        assert((a + b).skip(1) =~= a.skip(1) + b);
        lemma_prompts_join(
            a.skip(1),
            b,
            match text_kind(a[0]) {
                TextKind::Command(c) => if fallback.len() == 0 {
                    c
                } else {
                    fallback
                },
                _ => fallback,
            },
        );
    } else {
        assert(a + b =~= b);
    }
}

/// The first prompt among texts.
proof fn lemma_first_prompt(texts: Seq<Seq<char>>, fallback: Seq<char>, i: int)
    requires
        0 <= i <= texts.len(),
        i < texts.len() ==> text_kind(texts[i]) is Prompt,
        forall|j: int| 0 <= j < i ==> !(text_kind(#[trigger] texts[j]) is Prompt),
    ensures
        ({
            let r = first_prompt(texts, fallback);
            &&& i < texts.len() ==> r.0 is Some && TextKind::Prompt(r.0->0) == text_kind(texts[i])
            &&& i == texts.len() ==> r.0 is None
            &&& i == texts.len() && fallback.len() > 0 ==> r.1 == fallback
            &&& i == texts.len() && fallback.len() == 0 ==> forall|k: int|
                0 <= k < i && (forall|j: int|
                    0 <= j < k ==> (text_kind(#[trigger] texts[j]) matches TextKind::Command(c)
                        ==> c.len() == 0)) && (text_kind(#[trigger] texts[k]) matches
                    TextKind::Command(c) && c.len() > 0) ==> TextKind::Command(r.1) == text_kind(
                    texts[k],
                )
            &&& i == texts.len() && fallback.len() == 0 && (forall|j: int|
                0 <= j < i ==> (text_kind(#[trigger] texts[j]) matches TextKind::Command(c)
                    ==> c.len() == 0)) ==> r.1.len() == 0
        }),
    decreases texts.len(),
{
    if i > 0 {
        let rest = texts.skip(1);
        assert(forall|j: int| 0 <= j < rest.len() ==> #[trigger] rest[j] == texts[j + 1]);
        assert(!(text_kind(texts[0]) is Prompt));
        let fb = match text_kind(texts[0]) {
            TextKind::Command(c) => if fallback.len() == 0 {
                c
            } else {
                fallback
            },
            _ => fallback,
        };
        lemma_first_prompt(rest, fb, i - 1);
        let r = first_prompt(texts, fallback);
        assert(r == first_prompt(rest, fb));
        if i == texts.len() && fallback.len() == 0 {
            assert forall|k: int|
                0 <= k < i && (forall|j: int|
                    0 <= j < k ==> (text_kind(#[trigger] texts[j]) matches TextKind::Command(c)
                        ==> c.len() == 0)) && (text_kind(#[trigger] texts[k]) matches
                    TextKind::Command(c) && c.len() > 0) implies TextKind::Command(r.1)
                == text_kind(texts[k]) by {
                if k > 0 {
                    assert(text_kind(texts[0]) matches TextKind::Command(c) ==> c.len() == 0);
                    assert(fb.len() == 0);
                    assert forall|j: int| 0 <= j < k - 1 implies (text_kind(
                        #[trigger] rest[j],
                    ) matches TextKind::Command(c) ==> c.len() == 0) by {
                        assert(rest[j] == texts[j + 1]);
                    }
                    assert(rest[k - 1] == texts[k]);
                }
            }
            if forall|j: int|
                0 <= j < i ==> (text_kind(#[trigger] texts[j]) matches TextKind::Command(c)
                    ==> c.len() == 0) {
                assert(text_kind(texts[0]) matches TextKind::Command(c) ==> c.len() == 0);
                assert forall|j: int| 0 <= j < i - 1 implies (text_kind(#[trigger] rest[j]) matches
                    TextKind::Command(c) ==> c.len() == 0) by {
                    assert(rest[j] == texts[j + 1]);
                }
            }
        }
    }
}

/// Prompts are looked for in the messages of users: in a content that is a
/// text, or in the text blocks of one that is a list, in order. Lines with a
/// tool's result, meta lines and compact summaries are passed over.
pub proof fn law_where_prompts_are_looked_for(
    line: Seq<char>,
    a: Seq<Json>,
    b: Seq<Json>,
    block: Json,
)
    ensures
        !has_text(line, "\"type\":\"user\""@) && !has_text(line, "\"type\": \"user\""@)
            ==> line_texts(line).len() == 0,
        has_text(line, "\"tool_result\""@) || has_text(line, "\"isMeta\":true"@) || has_text(
            line,
            "\"isMeta\": true"@,
        ) || has_text(line, "\"isCompactSummary\":true"@) || has_text(
            line,
            "\"isCompactSummary\": true"@,
        ) ==> line_texts(line).len() == 0,
        (has_text(line, "\"type\":\"user\""@) || has_text(line, "\"type\": \"user\""@)) && !(
        has_text(line, "\"tool_result\""@) || has_text(line, "\"isMeta\":true"@) || has_text(
            line,
            "\"isMeta\": true"@,
        ) || has_text(line, "\"isCompactSummary\":true"@) || has_text(
            line,
            "\"isCompactSummary\": true"@,
        )) ==> match crate::json::parsed(line) {
            Some(Json::Object(e)) => if lookup(e, "type"@) == Some(Json::Str("user"@)) {
                match lookup(e, "message"@) {
                    Some(Json::Object(m)) => match lookup(m, "content"@) {
                        Some(Json::Str(s)) => line_texts(line) == seq![s],
                        Some(Json::Array(blocks)) => line_texts(line) == block_texts(blocks),
                        _ => line_texts(line).len() == 0,
                    },
                    _ => line_texts(line).len() == 0,
                }
            } else {
                line_texts(line).len() == 0
            },
            _ => line_texts(line).len() == 0,
        },
        block_texts(a + b) == block_texts(a) + block_texts(b),
        block_texts(seq![block]) == (match block {
            Json::Object(m) => match (lookup(m, "type"@), lookup(m, "text"@)) {
                (Some(Json::Str(t)), Some(Json::Str(s))) => if t == "text"@ {
                    seq![s]
                } else {
                    Seq::empty()
                },
                _ => Seq::empty(),
            },
            _ => Seq::empty(),
        }),
    decreases b.len(),
{
    assert(seq![block].drop_last() =~= Seq::<Json>::empty());
    assert(seq![block].last() == block);
    assert(block_texts(seq![block].drop_last()) =~= Seq::<Seq<char>>::empty());
    assert(block_texts(seq![block]) =~= (match block_text(block) {
        Some(t) => seq![t],
        None => Seq::empty(),
    }));
    if b.len() > 0 {
        let init = b.drop_last();
        law_where_prompts_are_looked_for(line, a, init, block);
        assert((a + b).drop_last() =~= a + init);
        assert((a + b).last() == b.last());
        assert(block_texts(a + b) =~= block_texts(a) + block_texts(b));
    } else {
        assert(a + b =~= a);
        assert(block_texts(a) + block_texts(b) =~= block_texts(a));
    }
}

} // verus!
