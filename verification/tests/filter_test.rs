use logstream::filter::parse_filter_query;
use logstream::filter::LogFilter;
use logstream::filter::LogFilterQuery;
use logstream::summary::parse_log;
use logstream::window::filtered_events;

fn sample_log() -> String {
    let lines = vec![
        "[t1] [INFO] [core] Starting process",
        "[t2] [WARN] [net] Connection lost",
        "[t3] [ERROR] [core] Failure detected",
    ];
    lines.join("\n")
}

#[test]
fn empty_level_allow_list_rejects_everything() {
    let empty: Vec<String> = Vec::new();
    let summary = parse_log(&sample_log(), None, Some(&empty));
    assert_eq!(summary.total_lines, 0);
    assert!(summary.levels.is_empty());
    assert!(summary.unique_domains.is_empty());
    assert_eq!(summary.start_timestamp, None);
    assert_eq!(summary.stop_timestamp, None);
}

#[test]
fn empty_domain_allow_list_rejects_everything() {
    let empty: Vec<String> = Vec::new();
    let summary = parse_log(&sample_log(), Some(&empty), None);
    assert_eq!(summary.total_lines, 0);
}

#[test]
fn empty_keyword_list_rejects_every_line() {
    let filter = LogFilter {
        levels: None,
        domains: None,
        keywords: Some(Vec::new()),
        context: 0,
    };
    let evs = filtered_events(&sample_log(), &filter);
    assert!(evs.is_empty());
}

#[test]
fn keywords_match_by_substring_any_of() {
    let filter = LogFilter {
        levels: None,
        domains: None,
        keywords: Some(vec!["lost".to_string(), "nowhere".to_string()]),
        context: 0,
    };
    let evs = filtered_events(&sample_log(), &filter);
    assert_eq!(evs.len(), 1);
    assert_eq!(evs[0].line, "[t2] [WARN] [net] Connection lost");
}

#[test]
fn keywords_are_case_sensitive() {
    let filter = LogFilter {
        levels: None,
        domains: None,
        keywords: Some(vec!["failure".to_string()]),
        context: 0,
    };
    // The message says "Failure"; the lowercase keyword does not match.
    let evs = filtered_events(&sample_log(), &filter);
    assert!(evs.is_empty());
}

#[test]
fn levels_are_case_sensitive_exact_members() {
    let levels = vec!["info".to_string()];
    let summary = parse_log(&sample_log(), None, Some(&levels));
    assert_eq!(summary.total_lines, 0);
}

#[test]
fn query_lists_split_at_commas_and_trim() {
    let query = LogFilterQuery {
        session_id: "s".to_string(),
        domains: Some(" core , net ".to_string()),
        levels: Some("INFO,WARN".to_string()),
        keywords: None,
        context: Some(3),
    };
    let filter = parse_filter_query(&query);
    assert_eq!(filter.domains, Some(vec!["core".to_string(), "net".to_string()]));
    assert_eq!(filter.levels, Some(vec!["INFO".to_string(), "WARN".to_string()]));
    assert_eq!(filter.keywords, None);
    assert_eq!(filter.context, 3);
}

#[test]
fn absent_context_means_zero() {
    let query = LogFilterQuery {
        session_id: "s".to_string(),
        domains: None,
        levels: None,
        keywords: None,
        context: None,
    };
    let filter = parse_filter_query(&query);
    assert_eq!(filter.context, 0);
}

#[test]
fn empty_list_parameter_keeps_one_empty_item() {
    let query = LogFilterQuery {
        session_id: "s".to_string(),
        domains: None,
        levels: Some("".to_string()),
        keywords: None,
        context: None,
    };
    let filter = parse_filter_query(&query);
    // One empty item: no level equals the empty string, so nothing passes.
    assert_eq!(filter.levels, Some(vec!["".to_string()]));
    let evs = filtered_events(&sample_log(), &filter);
    assert!(evs.is_empty());
}

#[test]
fn malformed_lines_are_unmatched() {
    let text = [
        "no brackets at all",
        "[only] [two]",
        "[a][b][c] glued together",
        "[] [INFO] [core] empty timestamp",
        "[t [INFO] [core] unclosed bracket",
    ]
    .join("\n");
    let summary = parse_log(&text, None, None);
    assert_eq!(summary.total_lines, 0);
}

#[test]
fn message_may_be_empty_and_leading_spaces_are_consumed() {
    let summary = parse_log("[t1] [INFO] [core]", None, None);
    assert_eq!(summary.total_lines, 1);

    let filter = LogFilter {
        levels: None,
        domains: None,
        keywords: Some(vec!["x".to_string()]),
        context: 0,
    };
    // The message is "x y": the run of spaces after the domain is consumed.
    let evs = filtered_events("[t1] [INFO] [core]   x y", &filter);
    assert_eq!(evs.len(), 1);
}
