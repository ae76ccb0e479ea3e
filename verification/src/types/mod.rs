//! Parts of requests and responses of the Messages API.
pub mod batch;

use serde_json::Value;
use vstd::prelude::*;

use crate::json::{json, Json};
use crate::text::{same, str_view, text_view};

verus! {

broadcast use vstd::string::group_string_axioms;

/// Who wrote a message.
#[derive(Debug, Clone, Copy, PartialEq, Eq, Structural)]
pub enum Role {
    /// The user.
    User,
    /// The model.
    Assistant,
}

// ---------------------------------------------------------------------------
// Caching
// ---------------------------------------------------------------------------

/// Asks for a part of a prompt to be cached.
#[derive(Debug, Clone)]
pub struct CacheControl {
    /// Always `ephemeral`.
    pub cache_type: String,
    /// How long the part is kept, such as `5m` or `1h`.
    pub ttl: Option<String>,
}

impl CacheControl {
    /// Kept for five minutes.
    pub fn ephemeral_5m() -> (r: Self)
        ensures
            r.cache_type@ == "ephemeral"@,
            text_view(r.ttl) == Some("5m"@),
    {
        CacheControl { cache_type: "ephemeral".to_owned(), ttl: Some("5m".to_owned()) }
    }

    /// Kept for an hour.
    pub fn ephemeral_1h() -> (r: Self)
        ensures
            r.cache_type@ == "ephemeral"@,
            text_view(r.ttl) == Some("1h"@),
    {
        CacheControl { cache_type: "ephemeral".to_owned(), ttl: Some("1h".to_owned()) }
    }

    /// Kept as long as the server likes.
    pub fn ephemeral() -> (r: Self)
        ensures
            r.cache_type@ == "ephemeral"@,
            r.ttl is None,
    {
        CacheControl { cache_type: "ephemeral".to_owned(), ttl: None }
    }
}

// ---------------------------------------------------------------------------
// Parts of requests
// ---------------------------------------------------------------------------

/// Where an image comes from.
#[derive(Debug, Clone)]
pub enum ImageSource {
    /// The image itself, in base 64.
    Base64 {
        /// The type of the image.
        media_type: String,
        /// The encoded bytes.
        data: String,
    },
    /// An address that the server can reach.
    Url {
        /// The address.
        url: String,
    },
    /// A file that was uploaded.
    File {
        /// The file.
        file_id: String,
    },
}

/// Whether a document is cited.
#[derive(Debug, Clone, Copy, PartialEq, Eq, Structural)]
pub struct CitationConfig {
    /// Citations are wanted.
    pub enabled: bool,
}

/// How the model selects tools.
#[derive(Debug, Clone)]
pub enum ToolChoice {
    /// The model decides.
    Auto,
    /// The model calls at least one tool.
    Any,
    /// The model calls this tool.
    Tool {
        /// The tool.
        name: String,
    },
    /// The model calls no tool.
    NoTool,
}

/// Why a tool choice could not be read.
#[derive(Debug)]
pub enum ToolChoiceFault {
    /// The tool has no name.
    MissingName,
    /// There is no such choice.
    Unknown(String),
}

/// The contents of a [`ToolChoice`].
pub ghost enum Choice {
    Auto,
    Any,
    Tool(Seq<char>),
    NoTool,
}

impl View for ToolChoice {
    type V = Choice;

    open spec fn view(&self) -> Choice {
        match self {
            ToolChoice::Auto => Choice::Auto,
            ToolChoice::Any => Choice::Any,
            ToolChoice::Tool { name } => Choice::Tool(name@),
            ToolChoice::NoTool => Choice::NoTool,
        }
    }
}

/// The type that a choice is sent as.
pub open spec fn choice_type(c: Choice) -> Seq<char> {
    match c {
        Choice::Auto => "auto"@,
        Choice::Any => "any"@,
        Choice::Tool(_) => "tool"@,
        Choice::NoTool => "none"@,
    }
}

/// The name that is sent with a choice.
pub open spec fn choice_name(c: Choice) -> Option<Seq<char>> {
    match c {
        Choice::Tool(name) => Some(name),
        _ => None,
    }
}

/// The choice that a type and a name stand for. Only a tool needs the name.
pub open spec fn choice_of(kind: Seq<char>, name: Option<Seq<char>>) -> Result<
    Choice,
    Option<Seq<char>>,
> {
    if kind == "auto"@ {
        Ok(Choice::Auto)
    } else if kind == "any"@ {
        Ok(Choice::Any)
    } else if kind == "none"@ {
        Ok(Choice::NoTool)
    } else if kind == "tool"@ {
        match name {
            Some(n) => Ok(Choice::Tool(n)),
            None => Err(None),
        }
    } else {
        Err(Some(kind))
    }
}

impl ToolChoice {
    /// The type that the choice is sent as.
    pub fn wire_type(&self) -> (r: &'static str)
        ensures
            r@ == choice_type(self@),
    {
        match self {
            ToolChoice::Auto => "auto",
            ToolChoice::Any => "any",
            ToolChoice::Tool { name } => "tool",
            ToolChoice::NoTool => "none",
        }
    }

    /// The name that is sent with the choice.
    pub fn wire_name(&self) -> (r: Option<&str>)
        ensures
            str_view(r) == choice_name(self@),
    {
        match self {
            ToolChoice::Tool { name } => Some(name.as_str()),
            _ => None,
        }
    }

    /// The choice that a type and a name stand for.
    pub fn from_wire(kind: &str, name: Option<String>) -> (r: Result<Self, ToolChoiceFault>)
        ensures
            match choice_of(kind@, text_view(name)) {
                Ok(c) => r matches Ok(choice) && choice@ == c,
                Err(None) => r matches Err(ToolChoiceFault::MissingName),
                Err(Some(k)) => r matches Err(ToolChoiceFault::Unknown(u)) && u@ == k,
            },
    {
        if same(kind, "auto") {
            Ok(ToolChoice::Auto)
        } else if same(kind, "any") {
            Ok(ToolChoice::Any)
        } else if same(kind, "none") {
            Ok(ToolChoice::NoTool)
        } else if same(kind, "tool") {
            match name {
                Some(n) => Ok(ToolChoice::Tool { name: n }),
                None => Err(ToolChoiceFault::MissingName),
            }
        } else {
            Err(ToolChoiceFault::Unknown(kind.to_owned()))
        }
    }
}

/// A choice that was sent is read as the same choice.
pub proof fn law_tool_choice_reads_back(c: Choice)
    ensures
        choice_of(choice_type(c), choice_name(c)) == Ok::<Choice, Option<Seq<char>>>(c),
{
    reveal_strlit("auto");
    reveal_strlit("any");
    reveal_strlit("none");
    reveal_strlit("tool");
    assert("auto"@[0] == 'a' && "auto"@.len() == 4);
    assert("any"@.len() == 3);
    assert("none"@[0] == 'n' && "none"@.len() == 4);
    assert("tool"@[0] == 't' && "tool"@.len() == 4);
}

/// Whether the model reasons before it answers.
#[derive(Debug, Clone, Copy, PartialEq, Eq, Structural)]
pub enum ThinkingConfig {
    /// It does.
    Enabled {
        /// How many tokens it may take. At least 1024, and less than the
        /// answer may take.
        budget_tokens: u32,
    },
    /// It does not.
    Disabled {},
    /// It decides.
    Adaptive {
        /// How many tokens it may take, if there is a limit.
        budget_tokens: Option<u32>,
    },
}

/// What is sent with a request about its sender.
#[derive(Debug, Clone)]
pub struct Metadata {
    /// The user.
    pub user_id: Option<String>,
}

// ---------------------------------------------------------------------------
// Responses
// ---------------------------------------------------------------------------

/// The place that a text was taken from.
#[derive(Debug, Clone)]
pub enum Citation {
    /// Characters of a text.
    CharLocation {
        /// What was taken.
        cited_text: String,
        /// From which document.
        document_index: u32,
        /// Its title.
        document_title: Option<String>,
        /// The first character.
        start_char_index: u32,
        /// The one behind the last.
        end_char_index: u32,
    },
    /// Pages of a document.
    PageLocation {
        /// What was taken.
        cited_text: String,
        /// From which document.
        document_index: u32,
        /// Its title.
        document_title: Option<String>,
        /// The first page.
        start_page_number: u32,
        /// The one behind the last.
        end_page_number: u32,
    },
    /// Blocks of content.
    ContentBlockLocation {
        /// What was taken.
        cited_text: String,
        /// From which document.
        document_index: u32,
        /// Its title.
        document_title: Option<String>,
        /// The first block.
        start_block_index: u32,
        /// The one behind the last.
        end_block_index: u32,
    },
    /// A page that a search on the web found.
    WebSearchResultLocation {
        /// What was taken.
        cited_text: String,
        /// The title of the page.
        title: Option<String>,
        /// Its address.
        url: String,
        /// The server's reference to it.
        encrypted_index: Option<String>,
    },
    /// A result of another search.
    SearchResultLocation {
        /// What was taken.
        cited_text: String,
        /// The title of the result.
        title: Option<String>,
        /// Where the result comes from.
        source: Option<String>,
        /// The first block.
        start_block_index: u32,
        /// The one behind the last.
        end_block_index: u32,
        /// Which result.
        search_result_index: u32,
    },
}

/// How many tokens a request took.
#[derive(Debug, Clone, Copy, PartialEq, Eq, Structural)]
pub struct Usage {
    /// Of the prompt.
    pub input_tokens: u64,
    /// Of the answer.
    pub output_tokens: u64,
    /// Written to the cache.
    pub cache_creation_input_tokens: Option<u64>,
    /// Read from the cache.
    pub cache_read_input_tokens: Option<u64>,
}

impl Default for Usage {
    /// None.
    fn default() -> (r: Self)
        ensures
            r == (Usage {
                input_tokens: 0,
                output_tokens: 0,
                cache_creation_input_tokens: None,
                cache_read_input_tokens: None,
            }),
    {
        Usage {
            input_tokens: 0,
            output_tokens: 0,
            cache_creation_input_tokens: None,
            cache_read_input_tokens: None,
        }
    }
}

/// How many tokens a request would take.
#[derive(Debug, Clone, Copy, PartialEq, Eq, Structural)]
pub struct CountTokensResponse {
    /// Of the prompt.
    pub input_tokens: u64,
}

/// A block of an answer.
#[derive(Debug, Clone)]
pub enum ResponseContentBlock {
    /// Text.
    Text {
        /// The text.
        text: String,
        /// Where parts of it were taken from.
        citations: Option<Vec<Citation>>,
    },
    /// A call of a tool.
    ToolUse {
        /// Names the call.
        id: String,
        /// The tool.
        name: String,
        /// What the tool is given.
        input: Value,
    },
    /// What the model reasoned.
    Thinking {
        /// The reasoning.
        thinking: String,
        /// The server's signature.
        signature: Option<String>,
    },
    /// What the model reasoned, for the server's eyes only.
    RedactedThinking {
        /// The encoded reasoning.
        data: String,
    },
}

/// What the readers of an answer look for in a block.
pub ghost enum Block {
    Text(Seq<char>),
    ToolUse(Seq<char>, Seq<char>, Json),
    Thinking(Seq<char>),
    RedactedThinking(Seq<char>),
}

impl View for ResponseContentBlock {
    type V = Block;

    open spec fn view(&self) -> Block {
        match self {
            ResponseContentBlock::Text { text, citations } => Block::Text(text@),
            ResponseContentBlock::ToolUse { id, name, input } => Block::ToolUse(
                id@,
                name@,
                json(*input),
            ),
            ResponseContentBlock::Thinking { thinking, signature } => Block::Thinking(thinking@),
            ResponseContentBlock::RedactedThinking { data } => Block::RedactedThinking(data@),
        }
    }
}

/// The contents of blocks.
pub open spec fn block_views(v: Seq<ResponseContentBlock>) -> Seq<Block> {
    Seq::new(v.len(), |i: int| v[i]@)
}

/// The text of the first block of text.
pub open spec fn first_text(blocks: Seq<Block>) -> Option<Seq<char>>
    decreases blocks.len(),
{
    if blocks.len() == 0 {
        None
    } else {
        match blocks[0] {
            Block::Text(text) => Some(text),
            _ => first_text(blocks.skip(1)),
        }
    }
}

/// The reasoning in the first block of reasoning.
pub open spec fn first_thinking(blocks: Seq<Block>) -> Option<Seq<char>>
    decreases blocks.len(),
{
    if blocks.len() == 0 {
        None
    } else {
        match blocks[0] {
            Block::Thinking(thinking) => Some(thinking),
            _ => first_thinking(blocks.skip(1)),
        }
    }
}

/// The calls of tools.
pub open spec fn tool_calls(blocks: Seq<Block>) -> Seq<(Seq<char>, Seq<char>, Json)>
    decreases blocks.len(),
{
    if blocks.len() == 0 {
        Seq::empty()
    } else {
        let before = tool_calls(blocks.drop_last());
        match blocks.last() {
            Block::ToolUse(id, name, input) => before.push((id, name, input)),
            _ => before,
        }
    }
}

/// The contents of calls of tools.
pub open spec fn call_views(v: Seq<(&str, &str, &Value)>) -> Seq<(Seq<char>, Seq<char>, Json)> {
    Seq::new(v.len(), |i: int| (v[i].0@, v[i].1@, json(*v[i].2)))
}

/// An answer of the model.
#[derive(Debug, Clone)]
pub struct CreateMessageResponse {
    /// Names the answer.
    pub id: String,
    /// Always `message`.
    pub response_type: Option<String>,
    /// The model.
    pub model: String,
    /// Always the model's.
    pub role: Role,
    /// What the model answered.
    pub content: Vec<ResponseContentBlock>,
    /// Why the answer ends.
    pub stop_reason: Option<String>,
    /// Which of the given sequences ended it.
    pub stop_sequence: Option<String>,
    /// How many tokens it took.
    pub usage: Usage,
}

impl CreateMessageResponse {
    /// The text of the first block of text.
    pub fn text(&self) -> (r: Option<&str>)
        ensures
            str_view(r) == first_text(block_views(self.content@)),
    {
        let ghost all = block_views(self.content@);
        let mut i: usize = 0;
        proof {
            assert(all.skip(0) =~= all);
        }
        while i < self.content.len()
            invariant
                all == block_views(self.content@),
                i <= self.content@.len(),
                first_text(all) == first_text(all.skip(i as int)),
            decreases self.content@.len() - i,
        {
            proof {
                assert(all.skip(i as int)[0] == self.content@[i as int]@);
                assert(all.skip(i as int).skip(1) =~= all.skip(i as int + 1));
            }
            match &self.content[i] {
                ResponseContentBlock::Text { text, citations } => return Some(text.as_str()),
                _ => {},
            }
            i = i + 1;
        }
        None
    }

    /// The reasoning in the first block of reasoning.
    pub fn thinking(&self) -> (r: Option<&str>)
        ensures
            str_view(r) == first_thinking(block_views(self.content@)),
    {
        let ghost all = block_views(self.content@);
        let mut i: usize = 0;
        proof {
            assert(all.skip(0) =~= all);
        }
        while i < self.content.len()
            invariant
                all == block_views(self.content@),
                i <= self.content@.len(),
                first_thinking(all) == first_thinking(all.skip(i as int)),
            decreases self.content@.len() - i,
        {
            proof {
                assert(all.skip(i as int)[0] == self.content@[i as int]@);
                assert(all.skip(i as int).skip(1) =~= all.skip(i as int + 1));
            }
            match &self.content[i] {
                ResponseContentBlock::Thinking { thinking, signature } => return Some(
                    thinking.as_str(),
                ),
                _ => {},
            }
            i = i + 1;
        }
        None
    }

    /// The calls of tools: the name of the call, the tool, and what it is
    /// given.
    pub fn tool_uses(&self) -> (r: Vec<(&str, &str, &Value)>)
        ensures
            call_views(r@) == tool_calls(block_views(self.content@)),
    {
        let ghost all = block_views(self.content@);
        let mut out: Vec<(&str, &str, &Value)> = Vec::new();
        let mut i: usize = 0;
        proof {
            assert(call_views(out@) =~= tool_calls(all.take(0)));
        }
        while i < self.content.len()
            invariant
                all == block_views(self.content@),
                i <= self.content@.len(),
                call_views(out@) == tool_calls(all.take(i as int)),
            decreases self.content@.len() - i,
        {
            let ghost were = out@;
            proof {
                assert(all.take(i as int + 1).drop_last() =~= all.take(i as int));
                assert(all.take(i as int + 1).last() == self.content@[i as int]@);
            }
            match &self.content[i] {
                ResponseContentBlock::ToolUse { id, name, input } => {
                    out.push((id.as_str(), name.as_str(), input));
                    proof {
                        assert(call_views(out@) =~= call_views(were).push(
                            (id@, name@, json(*input)),
                        ));
                    }
                },
                _ => {},
            }
            i = i + 1;
        }
        proof {
            assert(all.take(all.len() as int) =~= all);
        }
        out
    }
}

// ---------------------------------------------------------------------------
// Events of a stream
// ---------------------------------------------------------------------------

/// What is added to a block.
#[derive(Debug, Clone)]
pub enum ContentDelta {
    /// Text.
    TextDelta {
        /// The text.
        text: String,
    },
    /// A piece of what a tool is given.
    InputJsonDelta {
        /// The piece.
        partial_json: String,
    },
    /// Reasoning.
    ThinkingDelta {
        /// The reasoning.
        thinking: String,
    },
    /// The signature of the reasoning.
    SignatureDelta {
        /// The signature.
        signature: String,
    },
}

/// What is added to an answer.
#[derive(Debug, Clone)]
pub struct MessageDeltaData {
    /// Why the answer ends.
    pub stop_reason: Option<String>,
    /// Which of the given sequences ended it.
    pub stop_sequence: Option<String>,
}

/// An error in a stream.
#[derive(Debug, Clone)]
pub struct StreamError {
    /// The API's name for the kind of error.
    pub error_type: String,
    /// What the API says about it.
    pub message: String,
}

/// What a tool choice is called: by its kind, and with the tool's name only
/// where a tool is chosen. A choice of a tool without a name, and a kind of
/// any other name, are refused.
pub proof fn law_names_of_choices(name: Seq<char>, given: Option<Seq<char>>, kind: Seq<char>)
    ensures
        choice_type(Choice::Auto) == "auto"@ && choice_name(Choice::Auto) is None,
        choice_type(Choice::Any) == "any"@ && choice_name(Choice::Any) is None,
        choice_type(Choice::NoTool) == "none"@ && choice_name(Choice::NoTool) is None,
        choice_type(Choice::Tool(name)) == "tool"@ && choice_name(Choice::Tool(name)) == Some(name),
        choice_of("tool"@, None) == Err::<Choice, Option<Seq<char>>>(None),
        kind != "auto"@ && kind != "any"@ && kind != "none"@ && kind != "tool"@ ==> choice_of(
            kind,
            given,
        ) == Err::<Choice, Option<Seq<char>>>(Some(kind)),
{
    reveal_strlit("auto");
    reveal_strlit("any");
    reveal_strlit("none");
    reveal_strlit("tool");
    assert("auto"@[0] == 'a' && "auto"@.len() == 4);
    assert("any"@.len() == 3);
    assert("none"@[0] == 'n' && "none"@.len() == 4);
    assert("tool"@[0] == 't' && "tool"@.len() == 4);
}

/// The text of a response is that of its first text block, and its thinking
/// that of its first block of thinking, whatever other blocks come before.
pub proof fn law_first_blocks_count(blocks: Seq<Block>, i: int)
    requires
        0 <= i <= blocks.len(),
    ensures
        (forall|j: int| 0 <= j < i ==> !(#[trigger] blocks[j] is Text)) ==> {
            &&& i < blocks.len() ==> (blocks[i] matches Block::Text(t) ==> first_text(blocks)
                == Some(t))
            &&& i == blocks.len() ==> first_text(blocks) is None
        },
        (forall|j: int| 0 <= j < i ==> !(#[trigger] blocks[j] is Thinking)) ==> {
            &&& i < blocks.len() ==> (blocks[i] matches Block::Thinking(t) ==> first_thinking(
                blocks,
            ) == Some(t))
            &&& i == blocks.len() ==> first_thinking(blocks) is None
        },
    decreases blocks.len(),
{
    if i > 0 {
        let rest = blocks.skip(1);
        assert(forall|j: int| 0 <= j < rest.len() ==> #[trigger] rest[j] == blocks[j + 1]);
        law_first_blocks_count(rest, i - 1);
        if forall|j: int| 0 <= j < i ==> !(#[trigger] blocks[j] is Text) {
            assert(!(blocks[0] is Text));
            assert forall|j: int| 0 <= j < i - 1 implies !(#[trigger] rest[j] is Text) by {
                assert(!(blocks[j + 1] is Text));
            }
        }
        if forall|j: int| 0 <= j < i ==> !(#[trigger] blocks[j] is Thinking) {
            assert(!(blocks[0] is Thinking));
            assert forall|j: int| 0 <= j < i - 1 implies !(#[trigger] rest[j] is Thinking) by {
                assert(!(blocks[j + 1] is Thinking));
            }
        }
    }
}

/// The tool uses of a response are those of its blocks, one by one and in
/// order, with their identifier, name and input.
pub proof fn law_tool_uses_are_in_order(
    a: Seq<Block>,
    b: Seq<Block>,
    id: Seq<char>,
    name: Seq<char>,
    input: Json,
    other: Block,
)
    ensures
        tool_calls(a + b) == tool_calls(a) + tool_calls(b),
        tool_calls(seq![Block::ToolUse(id, name, input)]) == seq![(id, name, input)],
        !(other is ToolUse) ==> tool_calls(seq![other]).len() == 0,
    decreases b.len(),
{
    let none = Seq::<(Seq<char>, Seq<char>, Json)>::empty();
    let use_block = Block::ToolUse(id, name, input);
    assert(seq![use_block].drop_last() =~= Seq::<Block>::empty());
    assert(seq![use_block].last() == use_block);
    assert(tool_calls(seq![use_block].drop_last()) =~= none);
    assert(none.push((id, name, input)) =~= seq![(id, name, input)]);
    assert(seq![other].drop_last() =~= Seq::<Block>::empty());
    assert(seq![other].last() == other);
    if b.len() > 0 {
        law_tool_uses_are_in_order(a, b.drop_last(), id, name, input, other);
        assert((a + b).drop_last() =~= a + b.drop_last());
        assert((a + b).last() == b.last());
        assert(tool_calls(a + b) =~= tool_calls(a) + tool_calls(b));
    } else {
        assert(a + b =~= a);
        assert(tool_calls(a) + tool_calls(b) =~= tool_calls(a));
    }
}

} // verus!
