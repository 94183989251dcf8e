use smc::corpus::{extract_project_name, find_session, SessionFile, SessionLookup};
use smc::models::{ContentBlock, Message, MessageContent, MessageRecord, Record};
use smc::numfmt::{format_bytes, format_count, format_size_brief, u64_to_string};
use smc::render::{export_markdown, format_hit_markdown, hit_json_line, json_escape, markdown_document};
use smc::search::{SearchHit, SearchOpts};

fn file(project: &str, id: &str, size: u64) -> SessionFile {
    SessionFile {
        path: format!("/p/{}.jsonl", id),
        session_id: id.to_string(),
        project_name: project.to_string(),
        size_bytes: size,
    }
}

fn user_hit(project: &str, session: &str, line: usize, text: &str, ts: Option<&str>) -> SearchHit {
    SearchHit {
        project: project.to_string(),
        session_id: session.to_string(),
        record: Record::User(MessageRecord {
            uuid: None,
            parent_uuid: None,
            session_id: Some(session.to_string()),
            timestamp: ts.map(|t| t.to_string()),
            cwd: None,
            git_branch: None,
            version: None,
            message: Message {
                role: "user".to_string(),
                content: MessageContent::Text(text.to_string()),
            },
        }),
        line_num: line,
        matched_query: "q".to_string(),
    }
}

#[test]
fn count_formatting_groups_thousands() {
    assert_eq!(format_count(0), "0");
    assert_eq!(format_count(999), "999");
    assert_eq!(format_count(1000), "1,000");
    assert_eq!(format_count(1234567), "1,234,567");
    assert_eq!(u64_to_string(90210), "90210");
}

#[test]
fn byte_formatting_rounds_half_to_even() {
    assert_eq!(format_bytes(0), "0B");
    assert_eq!(format_bytes(1023), "1023B");
    assert_eq!(format_bytes(1536), "1.5KB");
    assert_eq!(format_bytes(2 * 1024 * 1024), "2.0MB");
    assert_eq!(format_bytes(3 * 1024 * 1024 * 1024), "3.00GB");
    // 1024 + 256 bytes is exactly 1.25 KiB: the tie rounds to the even digit
    assert_eq!(format_bytes(1280), "1.2KB");
    assert_eq!(format_size_brief(512), "512B");
    assert_eq!(format_size_brief(1536), "1.5KB");
    assert_eq!(format_size_brief(5 * 1024 * 1024 * 1024), "5120.0MB");
    assert_eq!(file("p", "s", 1536).size_human(), "1.5KB");
}

#[test]
fn project_names_come_from_directory_names() {
    assert_eq!(extract_project_name("-Users-kim-GitHub-WebApp"), "WebApp");
    assert_eq!(
        extract_project_name("-Users-kim-GitHub-misc-subproject"),
        "misc/subproject"
    );
    assert_eq!(extract_project_name("-Users-kim-GitHub"), "-Users-kim-GitHub");
    assert_eq!(extract_project_name("-Users-kim-somewhere-else"), "else");
    assert_eq!(extract_project_name("-Users"), "-Users");
}

#[test]
fn session_lookup_is_three_way() {
    let files = vec![file("a", "abcd1234", 1), file("b", "abcd9999", 1), file("c", "zz", 1)];
    match find_session(&files, "zz") {
        SessionLookup::Unique(i) => assert_eq!(i, 2),
        _ => panic!("exact id must match uniquely"),
    }
    match find_session(&files, "abcd9") {
        SessionLookup::Unique(i) => assert_eq!(i, 1),
        _ => panic!("a unique prefix must match"),
    }
    match find_session(&files, "abcd") {
        SessionLookup::Ambiguous(v) => assert_eq!(v, vec![0, 1]),
        _ => panic!("two prefix matches must be reported, not defaulted"),
    }
    match find_session(&files, "nope") {
        SessionLookup::NoMatch => {},
        _ => panic!("no match expected"),
    }
}

#[test]
fn json_escaping_matches_the_serializer() {
    assert_eq!(json_escape("plain"), "plain");
    assert_eq!(json_escape("a\"b\\c"), "a\\\"b\\\\c");
    assert_eq!(json_escape("line\nbreak\ttab\rret"), "line\\nbreak\\ttab\\rret");
    assert_eq!(json_escape("\u{8}\u{c}"), "\\b\\f");
    assert_eq!(json_escape("\u{1}\u{1f}"), "\\u0001\\u001f");
    assert_eq!(json_escape("naïve"), "naïve");
}

#[test]
fn hit_json_line_has_sorted_keys_and_unknown_timestamp() {
    let hit = user_hit("alpha", "s1", 3, "say \"hi\"", None);
    assert_eq!(
        hit_json_line(&hit),
        "{\"line\":3,\"matched_query\":\"q\",\"project\":\"alpha\",\"role\":\"user\",\"session_id\":\"s1\",\"text\":\"say \\\"hi\\\"\",\"timestamp\":\"unknown\"}"
    );
    let dated = user_hit("alpha", "s1", 3, "x", Some("2024-06-01T00:00:01Z"));
    assert!(hit_json_line(&dated).ends_with("\"timestamp\":\"2024-06-01T00:00:01Z\"}"));
}

#[test]
fn markdown_hit_section_shape() {
    let hit = user_hit("alpha", "s1", 7, "short body", Some("2024-06-01T00:00:01.123Z"));
    let md = format_hit_markdown(&hit);
    assert_eq!(
        md,
        "### alpha — user (2024-06-01T00:00:01)\n\n> Session: `s1` Line: 7\n\nshort body\n"
    );
    let long_text = "x".repeat(600);
    let long_hit = user_hit("alpha", "s1", 1, &long_text, None);
    let long_md = format_hit_markdown(&long_hit);
    assert!(long_md.contains(&format!("{}...", "x".repeat(500))));
    assert!(!long_md.contains(&"x".repeat(501)));
}

#[test]
fn markdown_document_names_query_filters_and_total() {
    let mut opts = SearchOpts {
        queries: vec!["alpha".to_string(), "beta".to_string()],
        is_regex: false,
        and_mode: false,
        role: Some("user".to_string()),
        tool: None,
        project: None,
        after: Some("2024-06-01".to_string()),
        before: None,
        branch: None,
        max_results: 0,
        stdout_md: true,
        md_file: None,
        count_mode: false,
        summary_mode: false,
        json_mode: false,
        include_smc: false,
        exclude_session: None,
    };
    let sections = vec!["SECTION-ONE".to_string(), "SECTION-TWO".to_string()];
    let doc = markdown_document(&opts, &sections, 2);
    assert!(doc.starts_with("# smc Search Results\n\n**Query:** `alpha, beta`\n"));
    assert!(doc.contains("**Filters:** role=user, after=2024-06-01\n"));
    assert!(doc.contains("**Results:** 2\n\n---\n\n"));
    assert!(doc.contains("SECTION-ONE\n---\n\nSECTION-TWO\n---\n\n"));
    opts.role = None;
    opts.after = None;
    let bare = markdown_document(&opts, &sections, 2);
    assert!(!bare.contains("**Filters:**"));
}

#[test]
fn export_preserves_block_order() {
    let f = file("alpha", "sess-1", 2048);
    let records = vec![
        Record::User(MessageRecord {
            uuid: None,
            parent_uuid: None,
            session_id: None,
            timestamp: Some("2024-06-01T10:00:00.000Z".to_string()),
            cwd: None,
            git_branch: None,
            version: None,
            message: Message {
                role: "user".to_string(),
                content: MessageContent::Blocks(vec![
                    ContentBlock::Text { text: "ask".to_string() },
                    ContentBlock::ToolUse {
                        id: None,
                        name: "Read".to_string(),
                        input: "{\"p\":1}".to_string(),
                    },
                    ContentBlock::ToolResult {
                        tool_use_id: None,
                        content: Some("\"data\"".to_string()),
                    },
                    ContentBlock::ToolUse {
                        id: None,
                        name: "Bash".to_string(),
                        input: "{\"c\":2}".to_string(),
                    },
                ]),
            },
        }),
        Record::Other,
    ];
    let md = export_markdown(&f, &records);
    assert!(md.starts_with("# Session: sess-1\n\n**Project:** alpha  \n**Size:** 2.0KB\n\n---\n\n"));
    assert!(md.contains("## USER (2024-06-01T10:00:00)"));
    let read_pos = md.find("**Tool: Read**").expect("first tool block present");
    let result_pos = md.find("**Result:**").expect("result block present");
    let bash_pos = md.find("**Tool: Bash**").expect("second tool block present");
    let ask_pos = md.find("ask").expect("text block present");
    assert!(ask_pos < read_pos && read_pos < result_pos && result_pos < bash_pos,
        "blocks must appear in source order");
}

#[test]
fn summary_reports_counts_dates_sessions_and_topics() {
    let hits = vec![
        user_hit("alpha", "s1", 1, "database migration planning overview", Some("2024-06-03T00:00:00Z")),
        user_hit("alpha", "s1", 2, "database backup", Some("2024-06-01T08:00:00Z")),
        user_hit("beta", "s2", 1, "database restore", Some("2024-06-02T00:00:00Z")),
    ];
    let queries = vec!["database".to_string()];
    let summary = smc::reduce::summarize(&hits, &queries);
    assert_eq!(summary.total, 3);
    assert_eq!(summary.project_counts[0], ("alpha".to_string(), 2));
    assert_eq!(summary.project_counts[1], ("beta".to_string(), 1));
    assert_eq!(summary.role_counts, vec![("user".to_string(), 3)]);
    assert_eq!(summary.session_count, 2);
    assert_eq!(summary.earliest.as_deref(), Some("2024-06-01"));
    assert_eq!(summary.latest.as_deref(), Some("2024-06-03"));
    // topic words: length at least four, no stop words, nothing containing a
    // query term ("database" itself is excluded)
    let topics = smc::reduce::top_topics(&summary.topic_counts, 10);
    assert!(!topics.iter().any(|t| t.contains("database")));
    assert!(topics.contains(&"migration".to_string()));
    assert!(topics.contains(&"backup".to_string()));
    assert!(!topics.contains(&"want".to_string()));
}

#[test]
fn relay_fields_are_extracted_from_cleaned_lines() {
    assert_eq!(smc::relay::clean_line("  **To: bob**  "), "To: bob");
    assert_eq!(smc::relay::clean_line("plain"), "plain");
    let text = "greetings\n**To: claude2**\nMessageID: msg-42\nbody";
    assert_eq!(smc::relay::extract_to_field(text).as_deref(), Some("claude2"));
    assert_eq!(smc::relay::extract_message_id(text).as_deref(), Some("msg-42"));
    assert_eq!(smc::relay::extract_to_field("To:   ").as_deref(), None);
    assert_eq!(smc::relay::extract_to_field("no fields").as_deref(), None);
}

#[test]
fn word_and_tool_frequencies_count_exactly() {
    let records = vec![
        Record::User(MessageRecord {
            uuid: None,
            parent_uuid: None,
            session_id: None,
            timestamp: None,
            cwd: None,
            git_branch: None,
            version: None,
            message: Message {
                role: "user".to_string(),
                content: MessageContent::Text("Rust rust go ml rust-lang".to_string()),
            },
        }),
        Record::Assistant(MessageRecord {
            uuid: None,
            parent_uuid: None,
            session_id: None,
            timestamp: None,
            cwd: None,
            git_branch: None,
            version: None,
            message: Message {
                role: "assistant".to_string(),
                content: MessageContent::Blocks(vec![
                    ContentBlock::ToolUse { id: None, name: "Bash".to_string(), input: "{}".to_string() },
                    ContentBlock::ToolUse { id: None, name: "Bash".to_string(), input: "{}".to_string() },
                    ContentBlock::ToolUse { id: None, name: "Read".to_string(), input: "{}".to_string() },
                ]),
            },
        }),
    ];
    let words = smc::freq::word_counts_of_records(&records);
    // words of three or more characters, case-folded; "ml" is too short;
    // "rust-lang" splits at the hyphen
    assert_eq!(words.get("rust"), 3);
    assert_eq!(words.get("lang"), 1);
    assert_eq!(words.get("ml"), 0);
    let tools = smc::freq::tool_counts_of_records(&records);
    assert_eq!(tools.get("Bash"), 2);
    assert_eq!(tools.get("Read"), 1);
    assert_eq!(tools.get("Edit"), 0);
}

#[test]
fn letter_frequencies_fold_case_over_text_and_bytes() {
    let mut counts = smc::freq::new_letter_counts();
    smc::freq::count_letters_of_text(&mut counts, "AbBa zz9!");
    assert_eq!(counts[0], 2);
    assert_eq!(counts[1], 2);
    assert_eq!(counts[25], 2);
    assert_eq!(counts[2], 0);

    let mut byte_counts = smc::freq::new_letter_counts();
    let data: Vec<u8> = b"Aa{Z".to_vec();
    smc::freq::count_letters_of_bytes(&mut byte_counts, &data);
    assert_eq!(byte_counts[0], 2);
    assert_eq!(byte_counts[25], 1);

    let mut merged = smc::freq::new_letter_counts();
    smc::freq::merge_letter_counts(&mut merged, &counts);
    smc::freq::merge_letter_counts(&mut merged, &byte_counts);
    assert_eq!(merged[0], 4);
}

#[test]
fn table_merge_adds_counts_keywise() {
    let mut global = smc::tally::CountTable::new();
    global.add("alpha", 2);
    let mut local = smc::tally::CountTable::new();
    local.add("alpha", 3);
    local.add("beta", 1);
    smc::freq::merge_tables(&mut global, local);
    assert_eq!(global.get("alpha"), 5);
    assert_eq!(global.get("beta"), 1);
    assert_eq!(global.get("gamma"), 0);
}

#[test]
fn sorting_orders_by_count_descending() {
    let entries = vec![
        ("low".to_string(), 1u64),
        ("high".to_string(), 9u64),
        ("mid".to_string(), 4u64),
    ];
    let sorted = smc::tally::sort_entries_desc(entries);
    assert_eq!(
        sorted,
        vec![
            ("high".to_string(), 9u64),
            ("mid".to_string(), 4u64),
            ("low".to_string(), 1u64),
        ]
    );
}

#[test]
fn export_round_trip_from_raw_lines_keeps_block_order() {
    let lines = vec![
        "{\"type\":\"assistant\",\"timestamp\":\"2024-06-01T09:00:00Z\",\"message\":{\"role\":\"assistant\",\"content\":[{\"type\":\"tool_use\",\"id\":\"a\",\"name\":\"Grep\",\"input\":{\"q\":1}},{\"type\":\"tool_result\",\"tool_use_id\":\"a\",\"content\":\"first-result\"},{\"type\":\"tool_use\",\"id\":\"b\",\"name\":\"Edit\",\"input\":{\"q\":2}},{\"type\":\"tool_result\",\"tool_use_id\":\"b\",\"content\":\"second-result\"}]}}"
            .to_string(),
    ];
    let records = smc::parse::parse_records(&lines);
    let f = file("alpha", "sess-2", 10);
    let md = export_markdown(&f, &records);
    let grep_pos = md.find("**Tool: Grep**").unwrap();
    let first_res = md.find("first-result").unwrap();
    let edit_pos = md.find("**Tool: Edit**").unwrap();
    let second_res = md.find("second-result").unwrap();
    assert!(
        grep_pos < first_res && first_res < edit_pos && edit_pos < second_res,
        "the export must show tool and result blocks in the order the file holds them"
    );
}
