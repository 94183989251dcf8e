use smc::corpus::SessionFile;
use smc::models::{Message, MessageContent, MessageRecord, Record};
use smc::sessions::{
    context_window, entry_keep, recent_message, session_entry, sort_entries_recent,
    sort_recent_desc,
};
use smc::stats::project_totals;

fn sample_file(project: &str, id: &str, size: u64) -> SessionFile {
    SessionFile {
        path: format!("/p/{}.jsonl", id),
        session_id: id.to_string(),
        project_name: project.to_string(),
        size_bytes: size,
    }
}

fn user_msg(text: &str, ts: Option<&str>) -> Record {
    Record::User(MessageRecord {
        uuid: None,
        parent_uuid: None,
        session_id: None,
        timestamp: ts.map(|t| t.to_string()),
        cwd: None,
        git_branch: None,
        version: None,
        message: Message {
            role: "user".to_string(),
            content: MessageContent::Text(text.to_string()),
        },
    })
}

fn assistant_msg(text: &str, ts: Option<&str>) -> Record {
    Record::Assistant(MessageRecord {
        uuid: None,
        parent_uuid: None,
        session_id: None,
        timestamp: ts.map(|t| t.to_string()),
        cwd: None,
        git_branch: None,
        version: None,
        message: Message {
            role: "assistant".to_string(),
            content: MessageContent::Text(text.to_string()),
        },
    })
}

#[test]
fn session_entry_reports_first_timestamp_and_user_preview() {
    let file = sample_file("alpha", "s1", 10);
    let records = vec![
        Record::Other,
        assistant_msg("greeting", None),
        assistant_msg("dated", Some("2024-06-01T00:00:00Z")),
        user_msg("the opening question", Some("2024-06-02T00:00:00Z")),
    ];
    let entry = session_entry(&file, &records);
    assert_eq!(entry.timestamp.as_deref(), Some("2024-06-01T00:00:00Z"));
    assert_eq!(entry.preview.as_deref(), Some("the opening question"));
    assert_eq!(entry.msg_count, 3);
    assert_eq!(entry.file.session_id, "s1");
}

#[test]
fn session_entry_stops_after_enough_messages() {
    let file = sample_file("alpha", "s1", 10);
    let mut records = vec![user_msg("first", Some("2024-06-01T00:00:00Z"))];
    for _ in 0..20 {
        records.push(assistant_msg("filler", None));
    }
    let entry = session_entry(&file, &records);
    // the scan stops once it has a timestamp, a preview, and more than five
    // messages; it does not examine the whole session
    assert_eq!(entry.msg_count, 6);
}

#[test]
fn entry_date_filters_drop_out_of_range_sessions() {
    let file = sample_file("alpha", "s1", 10);
    let entry = session_entry(&file, &vec![user_msg("x", Some("2024-06-15T00:00:00Z"))]);
    let june = "2024-06-01".to_string();
    let july = "2024-07-01".to_string();
    assert!(entry_keep(&entry, Some(&june), None));
    assert!(!entry_keep(&entry, Some(&july), None));
    assert!(entry_keep(&entry, None, Some(&july)));
    assert!(!entry_keep(&entry, None, Some(&june)));
    let undated = session_entry(&file, &vec![user_msg("x", None)]);
    assert!(entry_keep(&undated, Some(&june), Some(&july)));
}

#[test]
fn session_entries_sort_newest_first() {
    let file = sample_file("alpha", "s", 1);
    let mk = |ts: Option<&str>| smc::sessions::SessionEntry {
        file: file.clone(),
        timestamp: ts.map(|t| t.to_string()),
        preview: None,
        msg_count: 0,
    };
    let sorted = sort_entries_recent(vec![
        mk(None),
        mk(Some("2024-06-01")),
        mk(Some("2024-06-03")),
        mk(Some("2024-06-02")),
    ]);
    let keys: Vec<Option<String>> = sorted.into_iter().map(|e| e.timestamp).collect();
    assert_eq!(
        keys,
        vec![
            Some("2024-06-03".to_string()),
            Some("2024-06-02".to_string()),
            Some("2024-06-01".to_string()),
            None,
        ]
    );
}

#[test]
fn recent_messages_carry_previews_and_sort_by_time() {
    let file = sample_file("alpha", "s1", 10);
    let rec = user_msg("line one\nline two", Some("2024-06-02T08:00:00Z"));
    let msg = recent_message(&file, &rec, None).expect("message passes without a filter");
    assert_eq!(msg.preview, "line one ↵ line two");
    assert_eq!(msg.role, "user");
    assert_eq!(msg.timestamp, "2024-06-02T08:00:00Z");

    let role = "assistant".to_string();
    assert!(recent_message(&file, &rec, Some(&role)).is_none());
    assert!(recent_message(&file, &Record::Other, None).is_none());

    let older = recent_message(
        &file,
        &user_msg("older", Some("2024-06-01T00:00:00Z")),
        None,
    )
    .unwrap();
    let sorted = sort_recent_desc(vec![older, msg]);
    assert_eq!(sorted[0].timestamp, "2024-06-02T08:00:00Z");
    assert_eq!(sorted[1].timestamp, "2024-06-01T00:00:00Z");
}

#[test]
fn context_window_centers_on_the_nearest_message() {
    let message_lines = vec![2usize, 5, 9, 14, 20];
    let (start, end, target) = context_window(&message_lines, 9, 1);
    assert_eq!(target, 2);
    assert_eq!((start, end), (1, 4));
    // a line past every message targets the last one
    let (s2, e2, t2) = context_window(&message_lines, 99, 1);
    assert_eq!(t2, 4);
    assert_eq!((s2, e2), (3, 5));
    // a window wider than the list is clamped
    let (s3, e3, t3) = context_window(&message_lines, 1, 4);
    assert_eq!(t3, 0);
    assert_eq!((s3, e3), (0, 5));
}

#[test]
fn project_totals_group_sessions_and_bytes() {
    let files = vec![
        sample_file("alpha", "s1", 100),
        sample_file("beta", "s2", 7),
        sample_file("alpha", "s3", 50),
    ];
    let (counts, sizes) = project_totals(&files);
    assert_eq!(counts.get("alpha"), 2);
    assert_eq!(counts.get("beta"), 1);
    assert_eq!(counts.get("gamma"), 0);
    assert_eq!(sizes.get("alpha"), 150);
    assert_eq!(sizes.get("beta"), 7);
}
