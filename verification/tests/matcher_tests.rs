use smc::errors::SearchError;
use smc::matcher::Matcher;

fn plain(queries: &[&str], and_mode: bool) -> Matcher {
    let qs: Vec<String> = queries.iter().map(|q| q.to_string()).collect();
    Matcher::new(&qs, false, and_mode).expect("plain matcher always compiles")
}

fn regex(queries: &[&str], and_mode: bool) -> Result<Matcher, SearchError> {
    let qs: Vec<String> = queries.iter().map(|q| q.to_string()).collect();
    Matcher::new(&qs, true, and_mode)
}

#[test]
fn plain_match_ignores_case_both_ways() {
    let m = plain(&["AuThEnTiCaTiOn"], false);
    assert_eq!(
        m.first_matching_query("DEPLOY THE AUTHENTICATION SERVICE"),
        Some("authentication".to_string())
    );
    assert_eq!(
        m.first_matching_query("deploy the authentication service"),
        Some("authentication".to_string())
    );
    assert_eq!(m.first_matching_query("deploy the payment service"), None);
}

#[test]
fn plain_match_is_substring_containment() {
    let m = plain(&["cat"], false);
    assert!(m.first_matching_query("concatenate").is_some());
    assert!(m.first_matching_query("c a t").is_none());
    let empty = plain(&[""], false);
    assert_eq!(empty.first_matching_query("anything"), Some("".to_string()));
    assert_eq!(empty.first_matching_query(""), Some("".to_string()));
}

#[test]
fn or_mode_reports_first_declared_term() {
    let m = plain(&["beta", "alpha"], false);
    // both terms occur; the first declared one wins, not the first in the text
    assert_eq!(
        m.first_matching_query("alpha then beta"),
        Some("beta".to_string())
    );
    let m2 = plain(&["missing", "alpha"], false);
    assert_eq!(
        m2.first_matching_query("alpha then beta"),
        Some("alpha".to_string())
    );
}

#[test]
fn and_mode_requires_every_term_any_order() {
    let m = plain(&["service", "deploy"], true);
    // order and overlap in the text do not matter
    assert_eq!(
        m.first_matching_query("deploy the service"),
        Some("service + deploy".to_string())
    );
    assert_eq!(
        m.first_matching_query("service deploy"),
        Some("service + deploy".to_string())
    );
    assert_eq!(m.first_matching_query("deploy only"), None);
    assert_eq!(m.all_match("service only"), None);
}

#[test]
fn and_mode_terms_may_overlap_in_the_text() {
    let m = plain(&["abc", "bcd"], true);
    assert_eq!(m.first_matching_query("xabcdx"), Some("abc + bcd".to_string()));
}

#[test]
fn regex_match_reports_matched_text() {
    let m = regex(&["a+b"], false).unwrap();
    assert_eq!(m.first_matching_query("xxaaabyy"), Some("aaab".to_string()));
    assert_eq!(m.first_matching_query("no match"), None);
}

#[test]
fn regex_and_mode_joins_matches() {
    let m = regex(&["[0-9]+", "[a-z]+"], true).unwrap();
    assert_eq!(m.first_matching_query("abc123"), Some("123 + abc".to_string()));
    assert_eq!(m.first_matching_query("123"), None);
}

#[test]
fn regex_is_not_anchored() {
    let m = regex(&["end$"], false).unwrap();
    assert!(m.first_matching_query("the end").is_some());
    assert!(m.first_matching_query("end of it").is_none());
}

#[test]
fn invalid_regex_is_a_hard_error_with_its_pattern() {
    match regex(&["ok", "(["], false) {
        Err(SearchError::InvalidRegex { pattern }) => {
            assert_eq!(pattern, "([");
        },
        _ => panic!("expected the invalid pattern to be reported"),
    }
    let msg = SearchError::InvalidRegex { pattern: "([".to_string() }.message();
    assert_eq!(msg, "Invalid regex pattern: ([");
    assert_eq!(SearchError::EmptyQuery.message(), "Search query cannot be empty");
}
