use smc::models::{ContentBlock, Message, MessageContent, MessageRecord, Record};

fn message_with_blocks(role: &str, blocks: Vec<ContentBlock>) -> MessageRecord {
    MessageRecord {
        uuid: None,
        parent_uuid: None,
        session_id: None,
        timestamp: None,
        cwd: None,
        git_branch: None,
        version: None,
        message: Message { role: role.to_string(), content: MessageContent::Blocks(blocks) },
    }
}

fn message_with_text(role: &str, text: &str) -> MessageRecord {
    MessageRecord {
        uuid: None,
        parent_uuid: None,
        session_id: None,
        timestamp: None,
        cwd: None,
        git_branch: None,
        version: None,
        message: Message { role: role.to_string(), content: MessageContent::Text(text.to_string()) },
    }
}

#[test]
fn flat_text_content_is_verbatim() {
    let m = message_with_text("user", "hello there");
    assert_eq!(m.text_content(), "hello there");
    assert_eq!(m.text_content_no_thinking(), "hello there");
    assert!(m.tool_calls().is_empty());
    assert_eq!(m.thinking_content(), "");
    assert_eq!(m.tool_input_content(), "");
}

#[test]
fn block_text_content_preserves_block_order() {
    let m = message_with_blocks(
        "assistant",
        vec![
            ContentBlock::Text { text: "first".to_string() },
            ContentBlock::Thinking { thinking: "pondering".to_string() },
            ContentBlock::ToolUse {
                id: Some("t1".to_string()),
                name: "Bash".to_string(),
                input: "{\"command\":\"ls\"}".to_string(),
            },
            ContentBlock::ToolResult {
                tool_use_id: Some("t1".to_string()),
                content: Some("\"ok\"".to_string()),
            },
            ContentBlock::Other,
        ],
    );
    assert_eq!(
        m.text_content(),
        "first\npondering\n[tool: Bash] {\"command\":\"ls\"}\n[result] \"ok\""
    );
    assert_eq!(
        m.text_content_no_thinking(),
        "first\n[tool: Bash] {\"command\":\"ls\"}\n[result] \"ok\""
    );
    assert_eq!(m.thinking_content(), "pondering");
    assert_eq!(m.tool_input_content(), "[Bash] {\"command\":\"ls\"}");
}

#[test]
fn tool_calls_lists_names_in_order() {
    let m = message_with_blocks(
        "assistant",
        vec![
            ContentBlock::ToolUse {
                id: None,
                name: "Read".to_string(),
                input: "{}".to_string(),
            },
            ContentBlock::Text { text: "between".to_string() },
            ContentBlock::ToolUse {
                id: None,
                name: "Bash".to_string(),
                input: "{}".to_string(),
            },
        ],
    );
    assert_eq!(m.tool_calls(), vec!["Read".to_string(), "Bash".to_string()]);
}

#[test]
fn tool_result_without_content_contributes_nothing() {
    let m = message_with_blocks(
        "user",
        vec![
            ContentBlock::ToolResult { tool_use_id: None, content: None },
            ContentBlock::Text { text: "tail".to_string() },
        ],
    );
    assert_eq!(m.text_content(), "tail");
}

#[test]
fn touches_file_is_case_insensitive_over_payloads() {
    let m = message_with_blocks(
        "assistant",
        vec![ContentBlock::ToolUse {
            id: None,
            name: "Edit".to_string(),
            input: "{\"path\":\"/SRC/Main.RS\"}".to_string(),
        }],
    );
    assert!(m.touches_file("main.rs"));
    assert!(m.touches_file("/src/"));
    assert!(!m.touches_file("other.rs"));
    let flat = message_with_text("user", "mentions main.rs in prose only");
    assert!(!flat.touches_file("main.rs"));
}

#[test]
fn role_tokens_are_stable() {
    let u = Record::User(message_with_text("user", "x"));
    let a = Record::Assistant(message_with_text("assistant", "x"));
    let s = Record::System(message_with_text("system", "x"));
    let o = Record::Other;
    assert_eq!(u.role_str(), "user");
    assert_eq!(a.role_str(), "assistant");
    assert_eq!(s.role_str(), "system");
    assert_eq!(o.role_str(), "other");
    assert!(u.is_message());
    assert!(a.is_message());
    assert!(s.is_message());
    assert!(!o.is_message());
    assert!(o.as_message_record().is_none());
}

#[test]
fn parse_record_reads_messages_and_skips_bad_lines() {
    let line = "{\"type\":\"user\",\"uuid\":\"u1\",\"sessionId\":\"s1\",\"timestamp\":\"2024-06-01T00:00:01Z\",\"gitBranch\":\"main\",\"message\":{\"role\":\"user\",\"content\":\"hello\"}}";
    let rec = smc::parse::parse_record(line).expect("message line parses");
    assert_eq!(rec.role_str(), "user");
    let m = rec.as_message_record().unwrap();
    assert_eq!(m.uuid.as_deref(), Some("u1"));
    assert_eq!(m.session_id.as_deref(), Some("s1"));
    assert_eq!(m.timestamp.as_deref(), Some("2024-06-01T00:00:01Z"));
    assert_eq!(m.git_branch.as_deref(), Some("main"));
    assert_eq!(m.text_content(), "hello");

    assert!(smc::parse::parse_record("not json at all").is_none());
    assert!(smc::parse::parse_record("").is_none());
    assert!(smc::parse::parse_record("{\"noType\":1}").is_none());
    // a message line whose schema does not fit is skipped
    assert!(smc::parse::parse_record("{\"type\":\"user\",\"message\":{\"role\":5,\"content\":\"x\"}}").is_none());
    assert!(
        smc::parse::parse_record("{\"type\":\"user\",\"timestamp\":7,\"message\":{\"role\":\"user\",\"content\":\"x\"}}")
            .is_none()
    );
}

#[test]
fn parse_record_maps_unknown_types_and_blocks_to_other() {
    let progress = smc::parse::parse_record("{\"type\":\"progress\",\"data\":{\"x\":1}}").unwrap();
    assert!(!progress.is_message());
    let unknown = smc::parse::parse_record("{\"type\":\"mystery\"}").unwrap();
    assert!(!unknown.is_message());

    let line = "{\"type\":\"assistant\",\"message\":{\"role\":\"assistant\",\"content\":[{\"type\":\"surprise\",\"x\":1},{\"type\":\"text\",\"text\":\"hi\"}]}}";
    let rec = smc::parse::parse_record(line).unwrap();
    let m = rec.as_message_record().unwrap();
    // the unknown block is skippable, the text block survives
    assert_eq!(m.text_content(), "hi");
}

#[test]
fn parse_record_serializes_tool_payloads() {
    let line = "{\"type\":\"assistant\",\"message\":{\"role\":\"assistant\",\"content\":[{\"type\":\"tool_use\",\"id\":\"t1\",\"name\":\"Bash\",\"input\":{\"command\":\"ls\"}},{\"type\":\"tool_result\",\"tool_use_id\":\"t1\",\"content\":\"done\"}]}}";
    let rec = smc::parse::parse_record(line).unwrap();
    let m = rec.as_message_record().unwrap();
    assert_eq!(m.tool_calls(), vec!["Bash".to_string()]);
    assert_eq!(
        m.text_content(),
        "[tool: Bash] {\"command\":\"ls\"}\n[result] \"done\""
    );
}

#[test]
fn parse_records_keeps_line_order_and_skips_failures() {
    let lines = vec![
        "{\"type\":\"user\",\"message\":{\"role\":\"user\",\"content\":\"one\"}}".to_string(),
        "garbage".to_string(),
        "".to_string(),
        "{\"type\":\"assistant\",\"message\":{\"role\":\"assistant\",\"content\":\"two\"}}".to_string(),
    ];
    let records = smc::parse::parse_records(&lines);
    assert_eq!(records.len(), 2);
    assert_eq!(records[0].role_str(), "user");
    assert_eq!(records[1].role_str(), "assistant");
}
