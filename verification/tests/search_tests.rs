use smc::corpus::SessionFile;
use smc::errors::SearchError;
use smc::freq::role_counts_of_records;
use smc::reduce::count_by_project;
use smc::search::{search, SearchOpts, SessionLines};

fn opts(queries: &[&str]) -> SearchOpts {
    SearchOpts {
        queries: queries.iter().map(|q| q.to_string()).collect(),
        is_regex: false,
        and_mode: false,
        role: None,
        tool: None,
        project: None,
        after: None,
        before: None,
        branch: None,
        max_results: 0,
        stdout_md: false,
        md_file: None,
        count_mode: false,
        summary_mode: false,
        json_mode: false,
        include_smc: false,
        exclude_session: None,
    }
}

fn session(project: &str, id: &str, lines: &[&str]) -> SessionLines {
    SessionLines {
        file: SessionFile {
            path: format!("/projects/{}/{}.jsonl", project, id),
            session_id: id.to_string(),
            project_name: project.to_string(),
            size_bytes: 100,
        },
        lines: lines.iter().map(|l| l.to_string()).collect(),
    }
}

fn three_file_corpus() -> Vec<SessionLines> {
    vec![
        session(
            "alpha",
            "s1",
            &[
                "{\"type\":\"user\",\"timestamp\":\"2024-06-02T09:00:00Z\",\"message\":{\"role\":\"user\",\"content\":\"deploy the authentication service\"}}",
            ],
        ),
        session(
            "beta",
            "s2",
            &[
                "{\"type\":\"assistant\",\"message\":{\"role\":\"assistant\",\"content\":[{\"type\":\"tool_use\",\"id\":\"t\",\"name\":\"Bash\",\"input\":{\"command\":\"ls\"}}]}}",
            ],
        ),
        session("gamma", "s3", &["{\"type\":\"progress\",\"step\":1}"]),
    ]
}

#[test]
fn scenario_plain_search_finds_the_user_message() {
    let corpus = three_file_corpus();
    let hits = search(&corpus, &opts(&["authentication"])).unwrap();
    assert_eq!(hits.len(), 1);
    assert_eq!(hits[0].record.role_str(), "user");
    assert_eq!(hits[0].project, "alpha");
    assert_eq!(hits[0].session_id, "s1");
    assert_eq!(hits[0].line_num, 1);
    assert_eq!(hits[0].matched_query, "authentication");
}

#[test]
fn scenario_tool_filter_with_match_all_query() {
    let corpus = three_file_corpus();
    let mut o = opts(&[""]);
    o.tool = Some("Bash".to_string());
    let hits = search(&corpus, &o).unwrap();
    assert_eq!(hits.len(), 1);
    assert_eq!(hits[0].record.role_str(), "assistant");
    assert_eq!(hits[0].project, "beta");
}

#[test]
fn scenario_role_frequency_excludes_non_messages() {
    let corpus = three_file_corpus();
    let mut all: Vec<smc::models::Record> = Vec::new();
    for s in &corpus {
        let mut records = smc::parse::parse_records(&s.lines);
        all.append(&mut records);
    }
    let table = role_counts_of_records(&all);
    assert_eq!(table.get("user"), 1);
    assert_eq!(table.get("assistant"), 1);
    assert_eq!(table.get("system"), 0);
    // the progress record is a non-message and counts under no role token
    assert_eq!(table.get("other"), 0);
    let sorted = smc::tally::sort_entries_desc(table.into_entries());
    let roles: Vec<&str> = sorted.iter().map(|e| e.0.as_str()).collect();
    assert_eq!(roles.len(), 2);
    assert!(roles.contains(&"user"));
    assert!(roles.contains(&"assistant"));
}

#[test]
fn scenario_self_output_marker_is_excluded_unless_included() {
    let marker_line = "{\"type\":\"user\",\"message\":{\"role\":\"user\",\"content\":\"quoting <smc-cc-cli> wrapped output about databases\"}}";
    let corpus = vec![session("alpha", "s1", &[marker_line])];
    let o = opts(&["databases"]);
    let hits = search(&corpus, &o).unwrap();
    assert_eq!(hits.len(), 0, "the tool's own prior output is skipped");
    let mut inc = opts(&["databases"]);
    inc.include_smc = true;
    let hits2 = search(&corpus, &inc).unwrap();
    assert_eq!(hits2.len(), 1, "explicitly included, the message matches");
}

#[test]
fn scenario_after_date_filter_compares_lexicographically() {
    let corpus = vec![
        session(
            "alpha",
            "s1",
            &[
                "{\"type\":\"user\",\"timestamp\":\"2024-05-31T10:00:00Z\",\"message\":{\"role\":\"user\",\"content\":\"too early\"}}",
                "{\"type\":\"user\",\"timestamp\":\"2024-06-01T00:00:01Z\",\"message\":{\"role\":\"user\",\"content\":\"just in time\"}}",
            ],
        ),
    ];
    let mut o = opts(&["time", "early"]);
    o.after = Some("2024-06-01".to_string());
    let hits = search(&corpus, &o).unwrap();
    assert_eq!(hits.len(), 1);
    assert_eq!(hits[0].line_num, 2);
    assert_eq!(hits[0].matched_query, "time");
}

#[test]
fn before_filter_and_branch_filter() {
    let corpus = vec![
        session(
            "alpha",
            "s1",
            &[
                "{\"type\":\"user\",\"timestamp\":\"2024-07-01T00:00:00Z\",\"gitBranch\":\"feature/LOGIN\",\"message\":{\"role\":\"user\",\"content\":\"late branch work\"}}",
            ],
        ),
    ];
    let mut o = opts(&["work"]);
    o.before = Some("2024-06-30".to_string());
    assert_eq!(search(&corpus, &o).unwrap().len(), 0);

    let mut o2 = opts(&["work"]);
    o2.branch = Some("login".to_string());
    assert_eq!(search(&corpus, &o2).unwrap().len(), 1);

    let mut o3 = opts(&["work"]);
    o3.branch = Some("release".to_string());
    assert_eq!(search(&corpus, &o3).unwrap().len(), 0);
}

#[test]
fn message_without_branch_fails_a_branch_filter() {
    let corpus = vec![
        session(
            "alpha",
            "s1",
            &["{\"type\":\"user\",\"message\":{\"role\":\"user\",\"content\":\"plain work\"}}"],
        ),
    ];
    let mut o = opts(&["work"]);
    o.branch = Some("main".to_string());
    assert_eq!(search(&corpus, &o).unwrap().len(), 0);
}

#[test]
fn budget_is_a_hard_ceiling_sequentially() {
    let line = "{\"type\":\"user\",\"message\":{\"role\":\"user\",\"content\":\"needle\"}}";
    let corpus = vec![
        session("alpha", "s1", &[line, line, line]),
        session("beta", "s2", &[line, line, line]),
    ];
    let mut o = opts(&["needle"]);
    o.max_results = 4;
    let hits = search(&corpus, &o).unwrap();
    assert_eq!(hits.len(), 4);
    let mut unbounded = opts(&["needle"]);
    unbounded.max_results = 0;
    assert_eq!(search(&corpus, &unbounded).unwrap().len(), 6);
}

#[test]
fn count_mode_totals_equal_enumerated_hits() {
    let line_a = "{\"type\":\"user\",\"message\":{\"role\":\"user\",\"content\":\"needle one\"}}";
    let line_b = "{\"type\":\"assistant\",\"message\":{\"role\":\"assistant\",\"content\":\"needle two\"}}";
    let corpus = vec![
        session("alpha", "s1", &[line_a, line_b]),
        session("beta", "s2", &[line_a]),
        session("alpha", "s3", &[line_b]),
    ];
    let hits = search(&corpus, &opts(&["needle"])).unwrap();
    let (counts, total) = count_by_project(&hits);
    assert_eq!(total as usize, hits.len());
    let sum: u64 = counts.iter().map(|e| e.1).sum();
    assert_eq!(sum, total);
    assert_eq!(counts.len(), 2);
    assert_eq!(counts[0], ("alpha".to_string(), 3));
    assert_eq!(counts[1], ("beta".to_string(), 1));
}

#[test]
fn project_filter_and_session_exclusion_select_files() {
    let line = "{\"type\":\"user\",\"message\":{\"role\":\"user\",\"content\":\"needle\"}}";
    let corpus = vec![
        session("WebApp", "abc1", &[line]),
        session("backend", "abc2", &[line]),
        session("webapp-tools", "def3", &[line]),
    ];
    let mut o = opts(&["needle"]);
    o.project = Some("WEBAPP".to_string());
    let hits = search(&corpus, &o).unwrap();
    assert_eq!(hits.len(), 2);

    let mut o2 = opts(&["needle"]);
    o2.exclude_session = Some("abc".to_string());
    let hits2 = search(&corpus, &o2).unwrap();
    assert_eq!(hits2.len(), 1);
    assert_eq!(hits2[0].session_id, "def3");
}

#[test]
fn empty_query_list_aborts_before_scanning() {
    let corpus = three_file_corpus();
    match search(&corpus, &opts(&[])) {
        Err(SearchError::EmptyQuery) => {},
        _ => panic!("an empty query list must be a configuration error"),
    }
}

#[test]
fn invalid_regex_aborts_the_whole_search() {
    let corpus = three_file_corpus();
    let mut o = opts(&["("]);
    o.is_regex = true;
    match search(&corpus, &o) {
        Err(SearchError::InvalidRegex { pattern }) => assert_eq!(pattern, "("),
        _ => panic!("a bad regex must abort the run"),
    }
}

#[test]
fn regex_search_over_the_corpus() {
    let corpus = three_file_corpus();
    let mut o = opts(&["auth\\w+"]);
    o.is_regex = true;
    let hits = search(&corpus, &o).unwrap();
    assert_eq!(hits.len(), 1);
    assert_eq!(hits[0].matched_query, "authentication");
}

#[test]
fn role_filter_matches_exactly() {
    let corpus = three_file_corpus();
    let mut o = opts(&[""]);
    o.role = Some("assistant".to_string());
    let hits = search(&corpus, &o).unwrap();
    assert_eq!(hits.len(), 1);
    assert_eq!(hits[0].record.role_str(), "assistant");
    let mut o2 = opts(&[""]);
    o2.role = Some("assist".to_string());
    assert_eq!(search(&corpus, &o2).unwrap().len(), 0);
}

#[test]
fn hits_within_a_file_keep_line_order() {
    let corpus = vec![
        session(
            "alpha",
            "s1",
            &[
                "{\"type\":\"user\",\"message\":{\"role\":\"user\",\"content\":\"needle a\"}}",
                "not parsable",
                "{\"type\":\"user\",\"message\":{\"role\":\"user\",\"content\":\"nothing here\"}}",
                "{\"type\":\"user\",\"message\":{\"role\":\"user\",\"content\":\"needle b\"}}",
            ],
        ),
    ];
    let hits = search(&corpus, &opts(&["needle"])).unwrap();
    assert_eq!(hits.len(), 2);
    assert_eq!(hits[0].line_num, 1);
    assert_eq!(hits[1].line_num, 4);
}

#[test]
fn query_display_joins_terms() {
    let o = opts(&["one", "two"]);
    assert_eq!(o.query_display(), "one, two");
}
