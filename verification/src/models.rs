//! The record model: one parsed line of a conversation log.
//!
//! A record is either a user, assistant or system message, or a non-message
//! event. A message body is either a flat string or an ordered sequence of
//! content blocks; block order is significant and preserved by every derived
//! view. Structured tool payloads are carried as their serialized JSON text.

use vstd::prelude::*;

use crate::textops::{contains_seq, join_with, lower_of};

verus! {

/// One unit of a structured message body.
pub enum ContentBlock {
    /// Plain text.
    Text { text: String },
    /// A thinking block.
    Thinking { thinking: String },
    /// A tool invocation; `input` is the serialized JSON of its arguments.
    ToolUse { id: Option<String>, name: String, input: String },
    /// A tool result; `content` is the serialized JSON of its payload, if any.
    ToolResult { tool_use_id: Option<String>, content: Option<String> },
    /// An unrecognized block kind; never an error, always skippable.
    Other,
}

/// A message body: a flat string or ordered content blocks, never both.
pub enum MessageContent {
    Text(String),
    Blocks(Vec<ContentBlock>),
}

/// A role string plus the message body.
pub struct Message {
    pub role: String,
    pub content: MessageContent,
}

/// A message record with its optional line-level metadata.
pub struct MessageRecord {
    pub uuid: Option<String>,
    pub parent_uuid: Option<String>,
    pub session_id: Option<String>,
    pub timestamp: Option<String>,
    pub cwd: Option<String>,
    pub git_branch: Option<String>,
    pub version: Option<String>,
    pub message: Message,
}

/// One parsed line: a message of one of three roles, or a non-message event.
pub enum Record {
    User(MessageRecord),
    Assistant(MessageRecord),
    System(MessageRecord),
    Other,
}

/// The line-separator used between rendered block parts.
pub open spec fn part_sep() -> Seq<char> {
    seq!['\n']
}

/// The text parts one block contributes to the extracted text, in order.
/// Thinking blocks contribute only when `include_thinking` is set.
pub open spec fn block_parts(b: ContentBlock, include_thinking: bool) -> Seq<Seq<char>> {
    match b {
        ContentBlock::Text { text } => seq![text@],
        ContentBlock::Thinking { thinking } => if include_thinking {
            seq![thinking@]
        } else {
            Seq::empty()
        },
        ContentBlock::ToolUse { id: _, name, input } => seq!["[tool: "@ + name@ + "] "@ + input@],
        ContentBlock::ToolResult { tool_use_id: _, content } => match content {
            Some(c) => seq!["[result] "@ + c@],
            None => Seq::empty(),
        },
        ContentBlock::Other => Seq::empty(),
    }
}

/// The text parts of a whole block sequence, in block order.
pub open spec fn blocks_parts(bs: Seq<ContentBlock>, include_thinking: bool) -> Seq<Seq<char>>
    decreases bs.len(),
{
    if bs.len() == 0 {
        Seq::empty()
    } else {
        block_parts(bs[0], include_thinking) + blocks_parts(bs.drop_first(), include_thinking)
    }
}

/// Appending one block appends its parts.
pub proof fn lemma_blocks_parts_push(bs: Seq<ContentBlock>, b: ContentBlock, inc: bool)
    ensures
        blocks_parts(bs.push(b), inc) == blocks_parts(bs, inc) + block_parts(b, inc),
    decreases bs.len(),
{
    if bs.len() == 0 {
        reveal_with_fuel(blocks_parts, 2);
        assert(bs.push(b)[0] == b);
        assert(bs.push(b).drop_first() =~= bs);
        assert(blocks_parts(bs.push(b), inc) =~~= blocks_parts(bs, inc) + block_parts(b, inc));
    } else {
        assert(bs.push(b)[0] == bs[0]);
        assert(bs.push(b).drop_first() =~= bs.drop_first().push(b));
        lemma_blocks_parts_push(bs.drop_first(), b, inc);
        assert(blocks_parts(bs.push(b), inc) =~~= blocks_parts(bs, inc) + block_parts(b, inc));
    }
}

/// The extracted text of a message: a flat body verbatim, else the block
/// parts in block order joined by newlines.
pub open spec fn spec_text_content(m: MessageRecord, include_thinking: bool) -> Seq<char> {
    match m.message.content {
        MessageContent::Text(s) => s@,
        MessageContent::Blocks(bs) => join_with(blocks_parts(bs@, include_thinking), part_sep()),
    }
}

/// The tool names invoked by a block sequence, in block order.
pub open spec fn spec_tool_names(bs: Seq<ContentBlock>) -> Seq<Seq<char>>
    decreases bs.len(),
{
    if bs.len() == 0 {
        Seq::empty()
    } else {
        (match bs[0] {
            ContentBlock::ToolUse { id: _, name, input: _ } => seq![name@],
            _ => Seq::<Seq<char>>::empty(),
        }) + spec_tool_names(bs.drop_first())
    }
}

/// Appending one block appends its tool name, if it has one.
pub proof fn lemma_tool_names_push(bs: Seq<ContentBlock>, b: ContentBlock)
    ensures
        spec_tool_names(bs.push(b)) == spec_tool_names(bs) + (match b {
            ContentBlock::ToolUse { id: _, name, input: _ } => seq![name@],
            _ => Seq::<Seq<char>>::empty(),
        }),
    decreases bs.len(),
{
    let tail = match b {
        ContentBlock::ToolUse { id: _, name, input: _ } => seq![name@],
        _ => Seq::<Seq<char>>::empty(),
    };
    if bs.len() == 0 {
        reveal_with_fuel(spec_tool_names, 2);
        assert(bs.push(b)[0] == b);
        assert(bs.push(b).drop_first() =~= bs);
        assert(spec_tool_names(bs.push(b)) =~~= spec_tool_names(bs) + tail);
    } else {
        assert(bs.push(b)[0] == bs[0]);
        assert(bs.push(b).drop_first() =~= bs.drop_first().push(b));
        lemma_tool_names_push(bs.drop_first(), b);
        let head = match bs[0] {
            ContentBlock::ToolUse { id: _, name, input: _ } => seq![name@],
            _ => Seq::<Seq<char>>::empty(),
        };
        assert(spec_tool_names(bs.push(b)) =~~= spec_tool_names(bs) + tail);
    }
}

/// The thinking parts of a block sequence, in block order.
pub open spec fn spec_thinking_parts(bs: Seq<ContentBlock>) -> Seq<Seq<char>>
    decreases bs.len(),
{
    if bs.len() == 0 {
        Seq::empty()
    } else {
        (match bs[0] {
            ContentBlock::Thinking { thinking } => seq![thinking@],
            _ => Seq::<Seq<char>>::empty(),
        }) + spec_thinking_parts(bs.drop_first())
    }
}

/// The rendered tool-input parts of a block sequence, in block order.
pub open spec fn spec_tool_input_parts(bs: Seq<ContentBlock>) -> Seq<Seq<char>>
    decreases bs.len(),
{
    if bs.len() == 0 {
        Seq::empty()
    } else {
        (match bs[0] {
            ContentBlock::ToolUse { id: _, name, input } => seq!["["@ + name@ + "] "@ + input@],
            _ => Seq::<Seq<char>>::empty(),
        }) + spec_tool_input_parts(bs.drop_first())
    }
}

/// Whether one block's structured payload, case-folded, contains the needle.
pub open spec fn block_touches(b: ContentBlock, path_lower: Seq<char>) -> bool {
    match b {
        ContentBlock::ToolUse { id: _, name: _, input } => contains_seq(
            lower_of(input@),
            path_lower,
        ),
        ContentBlock::ToolResult { tool_use_id: _, content } => match content {
            Some(c) => contains_seq(lower_of(c@), path_lower),
            None => false,
        },
        _ => false,
    }
}

/// The message record carried by a message variant.
pub open spec fn spec_message_of(r: Record) -> MessageRecord
    recommends
        !(r is Other),
{
    match r {
        Record::User(m) => m,
        Record::Assistant(m) => m,
        Record::System(m) => m,
        Record::Other => arbitrary(),
    }
}

/// The tool names a message invokes, in block order; empty for a flat body.
pub open spec fn spec_tool_list(m: MessageRecord) -> Seq<Seq<char>> {
    match m.message.content {
        MessageContent::Blocks(bs) => spec_tool_names(bs@),
        _ => Seq::empty(),
    }
}

/// The role token of a record.
pub open spec fn spec_role_str(r: Record) -> Seq<char> {
    match r {
        Record::User(_) => "user"@,
        Record::Assistant(_) => "assistant"@,
        Record::System(_) => "system"@,
        Record::Other => "other"@,
    }
}

impl Record {
    /// The message record carried by a message variant, if any.
    pub fn as_message_record(&self) -> (r: Option<&MessageRecord>)
        ensures
            match *self {
                Record::User(m) | Record::Assistant(m) | Record::System(m) => r == Some(&m),
                Record::Other => r is None,
            },
    {
        match self {
            Record::User(m) | Record::Assistant(m) | Record::System(m) => Some(m),
            Record::Other => None,
        }
    }

    /// The stable lowercase role token.
    pub fn role_str(&self) -> (r: &'static str)
        ensures
            r@ == spec_role_str(*self),
    {
        match self {
            Record::User(_) => "user",
            Record::Assistant(_) => "assistant",
            Record::System(_) => "system",
            Record::Other => "other",
        }
    }

    /// Whether this record is a message (and so participates in search).
    pub fn is_message(&self) -> (r: bool)
        ensures
            r == !(*self is Other),
    {
        !matches!(self, Record::Other)
    }
}

/// The parts a block contributes, as strings; shared by the text views.
fn push_block_parts(parts: &mut Vec<String>, b: &ContentBlock, include_thinking: bool)
    ensures
        final (parts).deep_view() == old(parts).deep_view() + block_parts(*b, include_thinking),
{
    let ghost before = parts.deep_view();
    match b {
        ContentBlock::Text { text } => {
            parts.push(text.clone());
        },
        ContentBlock::Thinking { thinking } => {
            if include_thinking {
                parts.push(thinking.clone());
            }
        },
        ContentBlock::ToolUse { id: _, name, input } => {
            let mut s = String::new();
            s.append("[tool: ");
            s.append(name.as_str());
            s.append("] ");
            s.append(input.as_str());
            parts.push(s);
        },
        ContentBlock::ToolResult { tool_use_id: _, content } => {
            match content {
                Some(c) => {
                    let mut s = String::new();
                    s.append("[result] ");
                    s.append(c.as_str());
                    parts.push(s);
                },
                None => {},
            }
        },
        ContentBlock::Other => {},
    }
    proof {
        assert(parts.deep_view() =~= before + block_parts(*b, include_thinking));
    }
}

/// The text views, shared implementation.
fn text_content_with(m: &MessageRecord, include_thinking: bool) -> (r: String)
    ensures
        r@ == spec_text_content(*m, include_thinking),
{
    match &m.message.content {
        MessageContent::Text(s) => s.clone(),
        MessageContent::Blocks(blocks) => {
            let mut parts: Vec<String> = Vec::new();
            let mut i: usize = 0;
            while i < blocks.len()
                invariant
                    0 <= i <= blocks@.len(),
                    parts.deep_view() == blocks_parts(blocks@.take(i as int), include_thinking),
                decreases blocks@.len() - i,
            {
                push_block_parts(&mut parts, &blocks[i], include_thinking);
                proof {
                    assert(blocks@.take(i + 1) =~= blocks@.take(i as int).push(blocks@[i as int]));
                    lemma_blocks_parts_push(
                        blocks@.take(i as int),
                        blocks@[i as int],
                        include_thinking,
                    );
                }
                i += 1;
            }
            proof {
                assert(blocks@.take(blocks@.len() as int) =~= blocks@);
            }
            let r = crate::textops::join_strings(&parts, "\n");
            proof {
                reveal_strlit("\n");
                assert("\n"@ =~= part_sep());
            }
            r
        },
    }
}

impl MessageRecord {
    /// The extracted text: a flat body verbatim; else text, thinking and
    /// bracketed tool renderings, in block order, joined by newlines.
    pub fn text_content(&self) -> (r: String)
        ensures
            r@ == spec_text_content(*self, true),
    {
        text_content_with(self, true)
    }

    /// The extracted text with thinking blocks omitted.
    pub fn text_content_no_thinking(&self) -> (r: String)
        ensures
            r@ == spec_text_content(*self, false),
    {
        text_content_with(self, false)
    }

    /// The tool names invoked by this message, in block order; empty for a
    /// flat body.
    pub fn tool_calls(&self) -> (r: Vec<String>)
        ensures
            r.deep_view() == match self.message.content {
                MessageContent::Blocks(bs) => spec_tool_names(bs@),
                _ => Seq::<Seq<char>>::empty(),
            },
    {
        match &self.message.content {
            MessageContent::Blocks(blocks) => {
                let mut r: Vec<String> = Vec::new();
                let mut i: usize = 0;
                while i < blocks.len()
                    invariant
                        0 <= i <= blocks@.len(),
                        r.deep_view() == spec_tool_names(blocks@.take(i as int)),
                    decreases blocks@.len() - i,
                {
                    let ghost before = r.deep_view();
                    match &blocks[i] {
                        ContentBlock::ToolUse { id: _, name, input: _ } => {
                            r.push(name.clone());
                        },
                        _ => {},
                    }
                    proof {
                        assert(blocks@.take(i + 1) =~= blocks@.take(i as int).push(
                            blocks@[i as int],
                        ));
                        lemma_tool_names_push(blocks@.take(i as int), blocks@[i as int]);
                        assert(r.deep_view() =~= spec_tool_names(blocks@.take(i + 1)));
                    }
                    i += 1;
                }
                proof {
                    assert(blocks@.take(blocks@.len() as int) =~= blocks@);
                }
                r
            },
            _ => Vec::new(),
        }
    }

    /// The thinking text alone, in block order, joined by newlines.
    pub fn thinking_content(&self) -> (r: String)
        ensures
            r@ == match self.message.content {
                MessageContent::Blocks(bs) => join_with(spec_thinking_parts(bs@), part_sep()),
                _ => Seq::<char>::empty(),
            },
    {
        match &self.message.content {
            MessageContent::Blocks(blocks) => {
                let mut parts: Vec<String> = Vec::new();
                let mut i: usize = 0;
                while i < blocks.len()
                    invariant
                        0 <= i <= blocks@.len(),
                        parts.deep_view() == spec_thinking_parts(blocks@.take(i as int)),
                    decreases blocks@.len() - i,
                {
                    let ghost before = parts.deep_view();
                    match &blocks[i] {
                        ContentBlock::Thinking { thinking } => {
                            parts.push(thinking.clone());
                        },
                        _ => {},
                    }
                    proof {
                        assert(blocks@.take(i + 1) =~= blocks@.take(i as int).push(
                            blocks@[i as int],
                        ));
                        lemma_thinking_parts_push(blocks@.take(i as int), blocks@[i as int]);
                        assert(parts.deep_view() =~= spec_thinking_parts(blocks@.take(i + 1)));
                    }
                    i += 1;
                }
                proof {
                    assert(blocks@.take(blocks@.len() as int) =~= blocks@);
                }
                let r = crate::textops::join_strings(&parts, "\n");
                proof {
                    reveal_strlit("\n");
                    assert("\n"@ =~= part_sep());
                }
                r
            },
            _ => String::new(),
        }
    }

    /// The rendered tool inputs alone, in block order, joined by newlines.
    pub fn tool_input_content(&self) -> (r: String)
        ensures
            r@ == match self.message.content {
                MessageContent::Blocks(bs) => join_with(spec_tool_input_parts(bs@), part_sep()),
                _ => Seq::<char>::empty(),
            },
    {
        match &self.message.content {
            MessageContent::Blocks(blocks) => {
                let mut parts: Vec<String> = Vec::new();
                let mut i: usize = 0;
                while i < blocks.len()
                    invariant
                        0 <= i <= blocks@.len(),
                        parts.deep_view() == spec_tool_input_parts(blocks@.take(i as int)),
                    decreases blocks@.len() - i,
                {
                    let ghost before = parts.deep_view();
                    match &blocks[i] {
                        ContentBlock::ToolUse { id: _, name, input } => {
                            let mut s = String::new();
                            s.append("[");
                            s.append(name.as_str());
                            s.append("] ");
                            s.append(input.as_str());
                            parts.push(s);
                        },
                        _ => {},
                    }
                    proof {
                        assert(blocks@.take(i + 1) =~= blocks@.take(i as int).push(
                            blocks@[i as int],
                        ));
                        lemma_tool_input_parts_push(blocks@.take(i as int), blocks@[i as int]);
                        assert(parts.deep_view() =~= spec_tool_input_parts(blocks@.take(i + 1)));
                    }
                    i += 1;
                }
                proof {
                    assert(blocks@.take(blocks@.len() as int) =~= blocks@);
                }
                let r = crate::textops::join_strings(&parts, "\n");
                proof {
                    reveal_strlit("\n");
                    assert("\n"@ =~= part_sep());
                }
                r
            },
            _ => String::new(),
        }
    }

    /// Whether any tool payload in this message, case-folded, contains the
    /// case-folded needle.
    pub fn touches_file(&self, path: &str) -> (r: bool)
        ensures
            r == match self.message.content {
                MessageContent::Blocks(bs) => exists|i: int|
                    0 <= i < bs@.len() && block_touches(bs@[i], lower_of(path@)),
                _ => false,
            },
    {
        let path_lower = crate::textops::to_lowercase(path);
        let needle = crate::textops::chars_of(path_lower.as_str());
        match &self.message.content {
            MessageContent::Blocks(blocks) => {
                let mut i: usize = 0;
                while i < blocks.len()
                    invariant
                        0 <= i <= blocks@.len(),
                        needle@ == lower_of(path@),
                        self.message.content matches MessageContent::Blocks(bv) && bv@ == blocks@,
                        forall|k: int| 0 <= k < i ==> !block_touches(blocks@[k], lower_of(path@)),
                    decreases blocks@.len() - i,
                {
                    let hit = match &blocks[i] {
                        ContentBlock::ToolUse { id: _, name: _, input } => {
                            let low = crate::textops::to_lowercase(input.as_str());
                            let hay = crate::textops::chars_of(low.as_str());
                            crate::textops::contains_chars(&hay, &needle)
                        },
                        ContentBlock::ToolResult { tool_use_id: _, content } => {
                            match content {
                                Some(c) => {
                                    let low = crate::textops::to_lowercase(c.as_str());
                                    let hay = crate::textops::chars_of(low.as_str());
                                    crate::textops::contains_chars(&hay, &needle)
                                },
                                None => false,
                            }
                        },
                        _ => false,
                    };
                    proof {
                        assert(hit == block_touches(blocks@[i as int], lower_of(path@)));
                    }
                    if hit {
                        proof {
                            assert(exists|j: int|
                                0 <= j < blocks@.len() && block_touches(
                                    blocks@[j],
                                    lower_of(path@),
                                ));
                            assert(self.message.content matches MessageContent::Blocks(bs2)
                                && bs2@ == blocks@);
                        }
                        return true;
                    }
                    i += 1;
                }
                false
            },
            _ => false,
        }
    }
}

/// Appending one block appends its thinking part, if it has one.
proof fn lemma_thinking_parts_push(bs: Seq<ContentBlock>, b: ContentBlock)
    ensures
        spec_thinking_parts(bs.push(b)) == spec_thinking_parts(bs) + (match b {
            ContentBlock::Thinking { thinking } => seq![thinking@],
            _ => Seq::<Seq<char>>::empty(),
        }),
    decreases bs.len(),
{
    let tail = match b {
        ContentBlock::Thinking { thinking } => seq![thinking@],
        _ => Seq::<Seq<char>>::empty(),
    };
    if bs.len() == 0 {
        reveal_with_fuel(spec_thinking_parts, 2);
        assert(bs.push(b)[0] == b);
        assert(bs.push(b).drop_first() =~= bs);
        assert(spec_thinking_parts(bs.push(b)) =~~= spec_thinking_parts(bs) + tail);
    } else {
        assert(bs.push(b)[0] == bs[0]);
        assert(bs.push(b).drop_first() =~= bs.drop_first().push(b));
        lemma_thinking_parts_push(bs.drop_first(), b);
        let head = match bs[0] {
            ContentBlock::Thinking { thinking } => seq![thinking@],
            _ => Seq::<Seq<char>>::empty(),
        };
        assert(spec_thinking_parts(bs.push(b)) =~~= spec_thinking_parts(bs) + tail);
    }
}

/// Appending one block appends its rendered tool input, if it has one.
proof fn lemma_tool_input_parts_push(bs: Seq<ContentBlock>, b: ContentBlock)
    ensures
        spec_tool_input_parts(bs.push(b)) == spec_tool_input_parts(bs) + (match b {
            ContentBlock::ToolUse { id: _, name, input } => seq!["["@ + name@ + "] "@ + input@],
            _ => Seq::<Seq<char>>::empty(),
        }),
    decreases bs.len(),
{
    let tail = match b {
        ContentBlock::ToolUse { id: _, name, input } => seq!["["@ + name@ + "] "@ + input@],
        _ => Seq::<Seq<char>>::empty(),
    };
    if bs.len() == 0 {
        reveal_with_fuel(spec_tool_input_parts, 2);
        assert(bs.push(b)[0] == b);
        assert(bs.push(b).drop_first() =~= bs);
        assert(spec_tool_input_parts(bs.push(b)) =~~= spec_tool_input_parts(bs) + tail);
    } else {
        assert(bs.push(b)[0] == bs[0]);
        assert(bs.push(b).drop_first() =~= bs.drop_first().push(b));
        lemma_tool_input_parts_push(bs.drop_first(), b);
        let head = match bs[0] {
            ContentBlock::ToolUse { id: _, name, input } => seq!["["@ + name@ + "] "@ + input@],
            _ => Seq::<Seq<char>>::empty(),
        };
        assert(spec_tool_input_parts(bs.push(b)) =~~= spec_tool_input_parts(bs) + tail);
    }
}

} // verus!
