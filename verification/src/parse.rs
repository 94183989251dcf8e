//! Building records from raw log lines.
//!
//! One line is one JSON object with a `type` tag. A malformed line, or one
//! whose shape does not fit the record schema, yields no record and is
//! skipped by every caller, never an error. Unrecognized record types and
//! block kinds become the `Other` catch-alls. The JSON value itself is opaque
//! to verification; everything read from it flows through the wrappers in
//! `jsontext`, and all decisions below are verified code.

use vstd::prelude::*;

use crate::jsontext::{json_as_array, json_as_str, json_get, json_is_null, json_to_text, parse_json};
use crate::models::{ContentBlock, Message, MessageContent, MessageRecord, Record};
use crate::textops::str_eq;

verus! {

/// An optional string field: `Ok(None)` when absent or null, `Ok(Some(..))`
/// for a string, `Err(())` for any other shape (the whole line is skipped).
fn opt_string_field(v: &serde_json::Value, key: &str) -> Result<Option<String>, ()> {
    match json_get(v, key) {
        None => Ok(None),
        Some(f) => {
            if json_is_null(f) {
                Ok(None)
            } else {
                match json_as_str(f) {
                    Some(s) => {
                        let mut owned = String::new();
                        owned.append(s);
                        Ok(Some(owned))
                    },
                    None => Err(()),
                }
            }
        },
    }
}

/// An optional structured field, carried as its serialized JSON text:
/// `None` when absent or null.
fn opt_value_field(v: &serde_json::Value, key: &str) -> Option<String> {
    match json_get(v, key) {
        None => None,
        Some(f) => {
            if json_is_null(f) {
                None
            } else {
                Some(json_to_text(f))
            }
        },
    }
}

/// One content block from one element of a `content` array; `Err(())` when
/// the element does not fit the schema (the whole line is skipped).
fn parse_block(v: &serde_json::Value) -> Result<ContentBlock, ()> {
    let tag = match json_get(v, "type") {
        Some(t) => t,
        None => {
            return Err(());
        },
    };
    let kind = match json_as_str(tag) {
        Some(s) => s,
        None => {
            return Err(());
        },
    };
    if str_eq(kind, "text") {
        match json_get(v, "text") {
            Some(t) => match json_as_str(t) {
                Some(s) => {
                    let mut text = String::new();
                    text.append(s);
                    Ok(ContentBlock::Text { text })
                },
                None => Err(()),
            },
            None => Err(()),
        }
    } else if str_eq(kind, "thinking") {
        match json_get(v, "thinking") {
            Some(t) => match json_as_str(t) {
                Some(s) => {
                    let mut thinking = String::new();
                    thinking.append(s);
                    Ok(ContentBlock::Thinking { thinking })
                },
                None => Err(()),
            },
            None => Err(()),
        }
    } else if str_eq(kind, "tool_use") {
        let id = opt_string_field(v, "id")?;
        let name = match json_get(v, "name") {
            Some(n) => match json_as_str(n) {
                Some(s) => {
                    let mut name = String::new();
                    name.append(s);
                    name
                },
                None => {
                    return Err(());
                },
            },
            None => {
                return Err(());
            },
        };
        let input = match json_get(v, "input") {
            Some(i) => json_to_text(i),
            None => {
                return Err(());
            },
        };
        Ok(ContentBlock::ToolUse { id, name, input })
    } else if str_eq(kind, "tool_result") {
        let tool_use_id = opt_string_field(v, "tool_use_id")?;
        let content = opt_value_field(v, "content");
        Ok(ContentBlock::ToolResult { tool_use_id, content })
    } else {
        Ok(ContentBlock::Other)
    }
}

/// The message body: a flat string, or an array of content blocks.
fn parse_content(v: &serde_json::Value) -> Result<MessageContent, ()> {
    match json_as_str(v) {
        Some(s) => {
            let mut text = String::new();
            text.append(s);
            Ok(MessageContent::Text(text))
        },
        None => match json_as_array(v) {
            Some(elems) => {
                let mut blocks: Vec<ContentBlock> = Vec::new();
                let mut i: usize = 0;
                while i < elems.len()
                    decreases elems@.len() - i,
                {
                    let block = parse_block(&elems[i])?;
                    blocks.push(block);
                    i += 1;
                }
                Ok(MessageContent::Blocks(blocks))
            },
            None => Err(()),
        },
    }
}

/// The message record carried by a message-typed line.
fn parse_message_record(v: &serde_json::Value) -> Result<MessageRecord, ()> {
    let msg = match json_get(v, "message") {
        Some(m) => m,
        None => {
            return Err(());
        },
    };
    let role = match json_get(msg, "role") {
        Some(r) => match json_as_str(r) {
            Some(s) => {
                let mut role = String::new();
                role.append(s);
                role
            },
            None => {
                return Err(());
            },
        },
        None => {
            return Err(());
        },
    };
    let content = match json_get(msg, "content") {
        Some(c) => parse_content(c)?,
        None => {
            return Err(());
        },
    };
    Ok(
        MessageRecord {
            uuid: opt_string_field(v, "uuid")?,
            parent_uuid: opt_value_field(v, "parentUuid"),
            session_id: opt_string_field(v, "sessionId")?,
            timestamp: opt_string_field(v, "timestamp")?,
            cwd: opt_string_field(v, "cwd")?,
            git_branch: opt_string_field(v, "gitBranch")?,
            version: opt_string_field(v, "version")?,
            message: Message { role, content },
        },
    )
}

/// One record from one raw line, or `None` for a line to skip: malformed
/// JSON, a missing or non-string `type`, or a message line that does not fit
/// the schema. A recognized non-message type, and any unknown type, is the
/// non-message `Other` record.
pub fn parse_record(line: &str) -> Option<Record> {
    let v = parse_json(line)?;
    let tag = json_get(&v, "type")?;
    let kind = json_as_str(tag)?;
    if str_eq(kind, "user") {
        match parse_message_record(&v) {
            Ok(m) => Some(Record::User(m)),
            Err(()) => None,
        }
    } else if str_eq(kind, "assistant") {
        match parse_message_record(&v) {
            Ok(m) => Some(Record::Assistant(m)),
            Err(()) => None,
        }
    } else if str_eq(kind, "system") {
        match parse_message_record(&v) {
            Ok(m) => Some(Record::System(m)),
            Err(()) => None,
        }
    } else {
        Some(Record::Other)
    }
}

/// Every parsable record of a session's lines, in line order; lines that
/// yield no record are skipped, never an error.
pub fn parse_records(lines: &Vec<String>) -> Vec<Record> {
    let mut records: Vec<Record> = Vec::new();
    let mut i: usize = 0;
    while i < lines.len()
        decreases lines@.len() - i,
    {
        match parse_record(lines[i].as_str()) {
            Some(r) => records.push(r),
            None => {},
        }
        i += 1;
    }
    records
}

} // verus!
