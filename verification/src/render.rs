//! Machine-readable and markdown renderings of hits and sessions.
//!
//! The JSON hit line carries the fields of one hit, keys in sorted order,
//! strings escaped the way the JSON serializer escapes them. The markdown
//! forms render one section per hit, and a whole session in record order
//! with every content block in block order.

use vstd::prelude::*;

use crate::corpus::SessionFile;
use crate::models::{
    spec_message_of, spec_role_str, spec_text_content, ContentBlock, MessageContent, Record,
};
use crate::numfmt::{spec_digits, spec_size_brief, u64_to_string};
use crate::search::{SearchHit, SearchOpts};
use crate::textops::{join_with, spec_truncated, upper_of};

verus! {

/// The lowercase hex digit for `d`.
pub open spec fn hex_digit(d: int) -> char {
    if d == 0 {
        '0'
    } else if d == 1 {
        '1'
    } else if d == 2 {
        '2'
    } else if d == 3 {
        '3'
    } else if d == 4 {
        '4'
    } else if d == 5 {
        '5'
    } else if d == 6 {
        '6'
    } else if d == 7 {
        '7'
    } else if d == 8 {
        '8'
    } else if d == 9 {
        '9'
    } else if d == 10 {
        'a'
    } else if d == 11 {
        'b'
    } else if d == 12 {
        'c'
    } else if d == 13 {
        'd'
    } else if d == 14 {
        'e'
    } else {
        'f'
    }
}

/// How one character appears inside a JSON string literal: quote, backslash
/// and the short control escapes, `\u00..` for other control characters, and
/// everything else verbatim.
pub open spec fn escape_char(c: char) -> Seq<char> {
    if c == '"' {
        seq!['\\', '"']
    } else if c == '\\' {
        seq!['\\', '\\']
    } else if c == '\u{8}' {
        seq!['\\', 'b']
    } else if c == '\t' {
        seq!['\\', 't']
    } else if c == '\n' {
        seq!['\\', 'n']
    } else if c == '\u{c}' {
        seq!['\\', 'f']
    } else if c == '\r' {
        seq!['\\', 'r']
    } else if (c as u32) < 0x20 {
        seq!['\\', 'u', '0', '0', hex_digit(((c as u32) / 16) as int), hex_digit(((c as u32) % 16) as int)]
    } else {
        seq![c]
    }
}

/// A whole string escaped for a JSON string literal.
pub open spec fn json_escaped(s: Seq<char>) -> Seq<char>
    decreases s.len(),
{
    if s.len() == 0 {
        Seq::empty()
    } else {
        escape_char(s[0]) + json_escaped(s.drop_first())
    }
}

/// One more character appends its escape.
proof fn lemma_json_escaped_push(s: Seq<char>, c: char)
    ensures
        json_escaped(s.push(c)) == json_escaped(s) + escape_char(c),
    decreases s.len(),
{
    if s.len() == 0 {
        reveal_with_fuel(json_escaped, 2);
        assert(s.push(c)[0] == c);
        assert(s.push(c).drop_first() =~= s);
        assert(json_escaped(s.push(c)) =~= json_escaped(s) + escape_char(c));
    } else {
        assert(s.push(c)[0] == s[0]);
        assert(s.push(c).drop_first() =~= s.drop_first().push(c));
        lemma_json_escaped_push(s.drop_first(), c);
        assert(json_escaped(s.push(c)) =~= json_escaped(s) + escape_char(c));
    }
}

/// The lowercase hex digit for `d`.
fn hex_digit_of(d: u32) -> (c: char)
    requires
        d < 16,
    ensures
        c == hex_digit(d as int),
{
    if d == 0 {
        '0'
    } else if d == 1 {
        '1'
    } else if d == 2 {
        '2'
    } else if d == 3 {
        '3'
    } else if d == 4 {
        '4'
    } else if d == 5 {
        '5'
    } else if d == 6 {
        '6'
    } else if d == 7 {
        '7'
    } else if d == 8 {
        '8'
    } else if d == 9 {
        '9'
    } else if d == 10 {
        'a'
    } else if d == 11 {
        'b'
    } else if d == 12 {
        'c'
    } else if d == 13 {
        'd'
    } else if d == 14 {
        'e'
    } else {
        'f'
    }
}

/// The string escaped for use inside a JSON string literal.
pub fn json_escape(s: &str) -> (r: String)
    ensures
        r@ == json_escaped(s@),
{
    let chars = crate::textops::chars_of(s);
    let mut out: Vec<char> = Vec::new();
    let mut i: usize = 0;
    proof {
        assert(s@.take(0) =~= Seq::<char>::empty());
    }
    while i < chars.len()
        invariant
            chars@ == s@,
            0 <= i <= s@.len(),
            out@ == json_escaped(s@.take(i as int)),
        decreases s@.len() - i,
    {
        let c = chars[i];
        let ghost before = out@;
        proof {
            assert(s@.take(i + 1) =~= s@.take(i as int).push(s@[i as int]));
            lemma_json_escaped_push(s@.take(i as int), s@[i as int]);
        }
        if c == '"' {
            out.push('\\');
            out.push('"');
        } else if c == '\\' {
            out.push('\\');
            out.push('\\');
        } else if c == '\u{8}' {
            out.push('\\');
            out.push('b');
        } else if c == '\t' {
            out.push('\\');
            out.push('t');
        } else if c == '\n' {
            out.push('\\');
            out.push('n');
        } else if c == '\u{c}' {
            out.push('\\');
            out.push('f');
        } else if c == '\r' {
            out.push('\\');
            out.push('r');
        } else if (c as u32) < 0x20 {
            out.push('\\');
            out.push('u');
            out.push('0');
            out.push('0');
            out.push(hex_digit_of((c as u32) / 16));
            out.push(hex_digit_of((c as u32) % 16));
        } else {
            out.push(c);
        }
        proof {
            assert(out@ =~= before + escape_char(c));
        }
        i += 1;
    }
    proof {
        assert(s@.take(s@.len() as int) =~= s@);
    }
    crate::textops::string_from_chars(&out)
}

/// The timestamp a hit reports: the record's, or the literal `unknown`.
pub open spec fn spec_hit_timestamp(h: SearchHit) -> Seq<char> {
    if h.record is Other {
        "unknown"@
    } else {
        match spec_message_of(h.record).timestamp {
            Some(t) => t@,
            None => "unknown"@,
        }
    }
}

/// The text a hit carries: the record's extracted text, or nothing.
pub open spec fn spec_hit_text(h: SearchHit) -> Seq<char> {
    if h.record is Other {
        Seq::empty()
    } else {
        spec_text_content(spec_message_of(h.record), true)
    }
}

/// The machine-readable form of one hit: a JSON object with the fields
/// `project, session_id, line, role, timestamp, matched_query, text`, keys
/// in sorted order, `timestamp` defaulting to `unknown`.
pub open spec fn spec_hit_json(h: SearchHit) -> Seq<char> {
    "{\"line\":"@ + spec_digits(h.line_num as int) + ",\"matched_query\":\""@ + json_escaped(
        h.matched_query@,
    ) + "\",\"project\":\""@ + json_escaped(h.project@) + "\",\"role\":\""@ + json_escaped(
        spec_role_str(h.record),
    ) + "\",\"session_id\":\""@ + json_escaped(h.session_id@) + "\",\"text\":\""@ + json_escaped(
        spec_hit_text(h),
    ) + "\",\"timestamp\":\""@ + json_escaped(spec_hit_timestamp(h)) + "\"}"@
}

/// One hit as one JSON line.
pub fn hit_json_line(hit: &SearchHit) -> (r: String)
    ensures
        r@ == spec_hit_json(*hit),
{
    let mut r = String::new();
    r.append("{\"line\":");
    r.append(u64_to_string(hit.line_num as u64).as_str());
    r.append(",\"matched_query\":\"");
    r.append(json_escape(hit.matched_query.as_str()).as_str());
    r.append("\",\"project\":\"");
    r.append(json_escape(hit.project.as_str()).as_str());
    r.append("\",\"role\":\"");
    r.append(json_escape(hit.record.role_str()).as_str());
    r.append("\",\"session_id\":\"");
    r.append(json_escape(hit.session_id.as_str()).as_str());
    r.append("\",\"text\":\"");
    let text = match hit.record.as_message_record() {
        Some(m) => m.text_content(),
        None => String::new(),
    };
    r.append(json_escape(text.as_str()).as_str());
    r.append("\",\"timestamp\":\"");
    let ts = match hit.record.as_message_record() {
        Some(m) => match &m.timestamp {
            Some(t) => t.clone(),
            None => {
                let mut u = String::new();
                u.append("unknown");
                u
            },
        },
        None => {
            let mut u = String::new();
            u.append("unknown");
            u
        },
    };
    r.append(json_escape(ts.as_str()).as_str());
    r.append("\"}");
    r
}

/// A timestamp shortened to its first nineteen characters.
pub open spec fn spec_ts_short(ts: Seq<char>, n: int) -> Seq<char> {
    if ts.len() >= n {
        ts.take(n)
    } else {
        ts
    }
}

/// The markdown section of one hit: project, role, short timestamp, session
/// id, line number, and the content preview truncated to five hundred
/// characters; empty for a non-message record.
pub open spec fn spec_hit_markdown(h: SearchHit) -> Seq<char> {
    if h.record is Other {
        Seq::empty()
    } else {
        "### "@ + h.project@ + " — "@ + spec_role_str(h.record) + " ("@ + spec_ts_short(
            spec_hit_timestamp(h),
            19,
        ) + ")\n\n> Session: `"@ + h.session_id@ + "` Line: "@ + spec_digits(h.line_num as int)
            + "\n\n"@ + spec_truncated(spec_hit_text(h), 500) + "\n"@
    }
}

/// One hit as a markdown section.
pub fn format_hit_markdown(hit: &SearchHit) -> (r: String)
    ensures
        r@ == spec_hit_markdown(*hit),
{
    let msg = match hit.record.as_message_record() {
        Some(m) => m,
        None => {
            return String::new();
        },
    };
    let ts = match &msg.timestamp {
        Some(t) => t.clone(),
        None => {
            let mut u = String::new();
            u.append("unknown");
            u
        },
    };
    let ts_chars = crate::textops::chars_of(ts.as_str());
    let ts_short = if ts_chars.len() >= 19 {
        let head = crate::textops::take_chars(ts.as_str(), 19);
        crate::textops::string_from_chars(&head)
    } else {
        ts.clone()
    };
    let text = msg.text_content();
    let preview = crate::textops::truncate_chars(text.as_str(), 500);
    let mut r = String::new();
    r.append("### ");
    r.append(hit.project.as_str());
    r.append(" — ");
    r.append(hit.record.role_str());
    r.append(" (");
    r.append(ts_short.as_str());
    r.append(")\n\n> Session: `");
    r.append(hit.session_id.as_str());
    r.append("` Line: ");
    r.append(u64_to_string(hit.line_num as u64).as_str());
    r.append("\n\n");
    r.append(preview.as_str());
    r.append("\n");
    r
}

/// The filter descriptions active in a search, in a fixed order.
pub open spec fn spec_filters_list(opts: SearchOpts) -> Seq<Seq<char>> {
    (match opts.role {
        Some(r) => seq!["role="@ + r@],
        None => Seq::<Seq<char>>::empty(),
    }) + (match opts.tool {
        Some(t) => seq!["tool="@ + t@],
        None => Seq::<Seq<char>>::empty(),
    }) + (match opts.project {
        Some(p) => seq!["project="@ + p@],
        None => Seq::<Seq<char>>::empty(),
    }) + (match opts.after {
        Some(a) => seq!["after="@ + a@],
        None => Seq::<Seq<char>>::empty(),
    }) + (match opts.before {
        Some(b) => seq!["before="@ + b@],
        None => Seq::<Seq<char>>::empty(),
    }) + (match opts.branch {
        Some(br) => seq!["branch="@ + br@],
        None => Seq::<Seq<char>>::empty(),
    })
}

/// The hit sections each followed by a horizontal rule.
pub open spec fn spec_md_sections(sections: Seq<Seq<char>>) -> Seq<char>
    decreases sections.len(),
{
    if sections.len() == 0 {
        Seq::empty()
    } else {
        sections[0] + "\n---\n\n"@ + spec_md_sections(sections.drop_first())
    }
}

/// One more section appends after the earlier ones.
proof fn lemma_md_sections_push(sections: Seq<Seq<char>>, x: Seq<char>)
    ensures
        spec_md_sections(sections.push(x)) == spec_md_sections(sections) + x + "\n---\n\n"@,
    decreases sections.len(),
{
    if sections.len() == 0 {
        reveal_with_fuel(spec_md_sections, 2);
        assert(sections.push(x)[0] == x);
        assert(sections.push(x).drop_first() =~= sections);
        assert(spec_md_sections(sections.push(x)) =~= spec_md_sections(sections) + x
            + "\n---\n\n"@);
    } else {
        assert(sections.push(x)[0] == sections[0]);
        assert(sections.push(x).drop_first() =~= sections.drop_first().push(x));
        lemma_md_sections_push(sections.drop_first(), x);
        assert(spec_md_sections(sections.push(x)) =~= spec_md_sections(sections) + x
            + "\n---\n\n"@);
    }
}

/// The whole markdown document: a header naming the query and the active
/// filters, the result count, and the hit sections separated by rules.
pub open spec fn spec_markdown_document(
    opts: SearchOpts,
    sections: Seq<Seq<char>>,
    total: int,
) -> Seq<char> {
    let filters = spec_filters_list(opts);
    "# smc Search Results\n\n**Query:** `"@ + join_with(opts.queries.deep_view(), ", "@) + "`\n"@
        + (if filters.len() > 0 {
        "**Filters:** "@ + join_with(filters, ", "@) + "\n"@
    } else {
        Seq::<char>::empty()
    }) + "**Results:** "@ + spec_digits(total) + "\n\n---\n\n"@ + spec_md_sections(sections)
}

/// Assembles the markdown document for a set of rendered hit sections.
#[verifier::rlimit(60)]
pub fn markdown_document(opts: &SearchOpts, sections: &Vec<String>, total: u64) -> (r: String)
    ensures
        r@ == spec_markdown_document(*opts, sections.deep_view(), total as int),
{
    let mut filters: Vec<String> = Vec::new();
    match &opts.role {
        Some(v) => {
            let mut f = String::new();
            f.append("role=");
            f.append(v.as_str());
            filters.push(f);
        },
        None => {},
    }
    match &opts.tool {
        Some(v) => {
            let mut f = String::new();
            f.append("tool=");
            f.append(v.as_str());
            filters.push(f);
        },
        None => {},
    }
    match &opts.project {
        Some(v) => {
            let mut f = String::new();
            f.append("project=");
            f.append(v.as_str());
            filters.push(f);
        },
        None => {},
    }
    match &opts.after {
        Some(v) => {
            let mut f = String::new();
            f.append("after=");
            f.append(v.as_str());
            filters.push(f);
        },
        None => {},
    }
    match &opts.before {
        Some(v) => {
            let mut f = String::new();
            f.append("before=");
            f.append(v.as_str());
            filters.push(f);
        },
        None => {},
    }
    match &opts.branch {
        Some(v) => {
            let mut f = String::new();
            f.append("branch=");
            f.append(v.as_str());
            filters.push(f);
        },
        None => {},
    }
    proof {
        assert(filters.deep_view() =~~= spec_filters_list(*opts));
    }
    let mut r = String::new();
    r.append("# smc Search Results\n\n**Query:** `");
    r.append(crate::textops::join_strings(&opts.queries, ", ").as_str());
    r.append("`\n");
    if filters.len() > 0 {
        r.append("**Filters:** ");
        r.append(crate::textops::join_strings(&filters, ", ").as_str());
        r.append("\n");
    }
    r.append("**Results:** ");
    r.append(u64_to_string(total).as_str());
    r.append("\n\n---\n\n");
    let mut i: usize = 0;
    let ghost header = r@;
    proof {
        assert(sections.deep_view().take(0) =~= Seq::<Seq<char>>::empty());
    }
    while i < sections.len()
        invariant
            0 <= i <= sections@.len(),
            sections.deep_view().len() == sections@.len(),
            forall|k: int|
                0 <= k < sections@.len() ==> sections.deep_view()[k] == #[trigger] sections@[k]@,
            r@ == header + spec_md_sections(sections.deep_view().take(i as int)),
        decreases sections@.len() - i,
    {
        r.append(sections[i].as_str());
        r.append("\n---\n\n");
        proof {
            let dv = sections.deep_view();
            assert(dv.take(i + 1) =~= dv.take(i as int).push(dv[i as int]));
            lemma_md_sections_push(dv.take(i as int), dv[i as int]);
        }
        i += 1;
    }
    proof {
        assert(sections.deep_view().take(sections@.len() as int) =~= sections.deep_view());
    }
    r
}

/// The export rendering of one content block, in source order: text
/// verbatim, thinking in a details fold, tool invocations and results in
/// fenced code, unknown blocks skipped.
pub open spec fn spec_export_block(b: ContentBlock) -> Seq<char> {
    match b {
        ContentBlock::Text { text } => text@ + "\n\n"@,
        ContentBlock::Thinking { thinking } => "<details>\n<summary>Thinking</summary>\n\n"@
            + thinking@ + "\n\n</details>\n\n"@,
        ContentBlock::ToolUse { id: _, name, input } => "**Tool: "@ + name@ + "**\n```json\n"@
            + input@ + "\n```\n\n"@,
        ContentBlock::ToolResult { tool_use_id: _, content } => match content {
            Some(c) => "**Result:**\n```\n"@ + c@.take(
                vstd::math::min(2000int, c@.len() as int),
            ) + "\n```\n\n"@,
            None => Seq::empty(),
        },
        ContentBlock::Other => Seq::empty(),
    }
}

/// The export rendering of a block sequence: each block's rendering, in
/// block order.
pub open spec fn spec_export_blocks(bs: Seq<ContentBlock>) -> Seq<char>
    decreases bs.len(),
{
    if bs.len() == 0 {
        Seq::empty()
    } else {
        spec_export_block(bs[0]) + spec_export_blocks(bs.drop_first())
    }
}

/// Block order is preserved by the export: rendering one more block appends
/// its rendering after everything rendered before it.
pub proof fn lemma_export_blocks_order(bs: Seq<ContentBlock>, b: ContentBlock)
    ensures
        spec_export_blocks(bs.push(b)) == spec_export_blocks(bs) + spec_export_block(b),
    decreases bs.len(),
{
    if bs.len() == 0 {
        reveal_with_fuel(spec_export_blocks, 2);
        assert(bs.push(b)[0] == b);
        assert(bs.push(b).drop_first() =~= bs);
        assert(spec_export_blocks(bs.push(b)) =~= spec_export_blocks(bs) + spec_export_block(b));
    } else {
        assert(bs.push(b)[0] == bs[0]);
        assert(bs.push(b).drop_first() =~= bs.drop_first().push(b));
        lemma_export_blocks_order(bs.drop_first(), b);
        assert(spec_export_blocks(bs.push(b)) =~= spec_export_blocks(bs) + spec_export_block(b));
    }
}

/// The export rendering of one record: a role heading with the short
/// timestamp, then the body, then a rule; nothing for a non-message.
pub open spec fn spec_export_record(r: Record) -> Seq<char> {
    if r is Other {
        Seq::empty()
    } else {
        let m = spec_message_of(r);
        let ts = match m.timestamp {
            Some(t) => t@,
            None => "unknown"@,
        };
        "## "@ + upper_of(spec_role_str(r)) + " ("@ + spec_ts_short(ts, 19) + ")\n\n"@ + (
        match m.message.content {
            MessageContent::Text(s) => s@ + "\n\n"@,
            MessageContent::Blocks(bs) => spec_export_blocks(bs@),
        }) + "---\n\n"@
    }
}

/// The export rendering of a record list, in record order.
pub open spec fn spec_export_records(records: Seq<Record>) -> Seq<char>
    decreases records.len(),
{
    if records.len() == 0 {
        Seq::empty()
    } else {
        spec_export_record(records[0]) + spec_export_records(records.drop_first())
    }
}

/// One more record appends its rendering.
proof fn lemma_export_records_push(records: Seq<Record>, r: Record)
    ensures
        spec_export_records(records.push(r)) == spec_export_records(records) + spec_export_record(
            r,
        ),
    decreases records.len(),
{
    if records.len() == 0 {
        reveal_with_fuel(spec_export_records, 2);
        assert(records.push(r)[0] == r);
        assert(records.push(r).drop_first() =~= records);
        assert(spec_export_records(records.push(r)) =~= spec_export_records(records)
            + spec_export_record(r));
    } else {
        assert(records.push(r)[0] == records[0]);
        assert(records.push(r).drop_first() =~= records.drop_first().push(r));
        lemma_export_records_push(records.drop_first(), r);
        assert(spec_export_records(records.push(r)) =~= spec_export_records(records)
            + spec_export_record(r));
    }
}

/// The whole session export: a header naming session, project and size, then
/// every message record in order.
pub open spec fn spec_export_session(file: SessionFile, records: Seq<Record>) -> Seq<char> {
    "# Session: "@ + file.session_id@ + "\n\n**Project:** "@ + file.project_name@
        + "  \n**Size:** "@ + spec_size_brief(file.size_bytes as int) + "\n\n---\n\n"@
        + spec_export_records(records)
}

/// One record's export rendering.
fn export_record(rec: &Record) -> (r: String)
    ensures
        r@ == spec_export_record(*rec),
{
    let msg = match rec.as_message_record() {
        Some(m) => m,
        None => {
            return String::new();
        },
    };
    let role_upper = crate::textops::to_uppercase(rec.role_str());
    let ts = match &msg.timestamp {
        Some(t) => t.clone(),
        None => {
            let mut u = String::new();
            u.append("unknown");
            u
        },
    };
    let ts_chars = crate::textops::chars_of(ts.as_str());
    let ts_short = if ts_chars.len() >= 19 {
        let head = crate::textops::take_chars(ts.as_str(), 19);
        crate::textops::string_from_chars(&head)
    } else {
        ts.clone()
    };
    let mut r = String::new();
    r.append("## ");
    r.append(role_upper.as_str());
    r.append(" (");
    r.append(ts_short.as_str());
    r.append(")\n\n");
    match &msg.message.content {
        MessageContent::Text(s) => {
            r.append(s.as_str());
            r.append("\n\n");
        },
        MessageContent::Blocks(blocks) => {
            let mut i: usize = 0;
            let ghost head = r@;
            proof {
                assert(blocks@.take(0) =~= Seq::<ContentBlock>::empty());
            }
            while i < blocks.len()
                invariant
                    0 <= i <= blocks@.len(),
                    r@ == head + spec_export_blocks(blocks@.take(i as int)),
                decreases blocks@.len() - i,
            {
                proof {
                    assert(blocks@.take(i + 1) =~= blocks@.take(i as int).push(blocks@[i as int]));
                    lemma_export_blocks_order(blocks@.take(i as int), blocks@[i as int]);
                }
                match &blocks[i] {
                    ContentBlock::Text { text } => {
                        r.append(text.as_str());
                        r.append("\n\n");
                    },
                    ContentBlock::Thinking { thinking } => {
                        r.append("<details>\n<summary>Thinking</summary>\n\n");
                        r.append(thinking.as_str());
                        r.append("\n\n</details>\n\n");
                    },
                    ContentBlock::ToolUse { id: _, name, input } => {
                        r.append("**Tool: ");
                        r.append(name.as_str());
                        r.append("**\n```json\n");
                        r.append(input.as_str());
                        r.append("\n```\n\n");
                    },
                    ContentBlock::ToolResult { tool_use_id: _, content } => {
                        match content {
                            Some(c) => {
                                let preview = crate::textops::take_chars(c.as_str(), 2000);
                                r.append("**Result:**\n```\n");
                                r.append(crate::textops::string_from_chars(&preview).as_str());
                                r.append("\n```\n\n");
                            },
                            None => {},
                        }
                    },
                    ContentBlock::Other => {},
                }
                i += 1;
            }
            proof {
                assert(blocks@.take(blocks@.len() as int) =~= blocks@);
            }
        },
    }
    r.append("---\n\n");
    r
}

/// A session exported as markdown: header, then every message record in
/// order, every block in block order.
pub fn export_markdown(file: &SessionFile, records: &Vec<Record>) -> (r: String)
    ensures
        r@ == spec_export_session(*file, records@),
{
    let mut r = String::new();
    r.append("# Session: ");
    r.append(file.session_id.as_str());
    r.append("\n\n**Project:** ");
    r.append(file.project_name.as_str());
    r.append("  \n**Size:** ");
    r.append(file.size_human().as_str());
    r.append("\n\n---\n\n");
    let ghost head = r@;
    let mut i: usize = 0;
    proof {
        assert(records@.take(0) =~= Seq::<Record>::empty());
    }
    while i < records.len()
        invariant
            0 <= i <= records@.len(),
            r@ == head + spec_export_records(records@.take(i as int)),
        decreases records@.len() - i,
    {
        proof {
            assert(records@.take(i + 1) =~= records@.take(i as int).push(records@[i as int]));
            lemma_export_records_push(records@.take(i as int), records@[i as int]);
        }
        let section = export_record(&records[i]);
        r.append(section.as_str());
        i += 1;
    }
    proof {
        assert(records@.take(records@.len() as int) =~= records@);
    }
    r
}

} // verus!
