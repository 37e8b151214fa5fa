use logstream::summary::filter_logs;
use logstream::summary::parse_log;
use logstream::summary::FilterRequest;

fn sample_log() -> String {
    let lines = vec![
        "[t1] [INFO] [core] start",
        "not a log line",
        "[t2] [WARN] [net] wobble",
        "[t3] [INFO] [core] work",
        "[t4] [ERROR] [disk] fail",
    ];
    lines.join("\n")
}

#[test]
fn total_counts_only_grammar_matching_lines() {
    let summary = parse_log(&sample_log(), None, None);
    assert_eq!(summary.total_lines, 4);
}

#[test]
fn level_counts_sum_to_the_total() {
    let summary = parse_log(&sample_log(), None, None);
    let sum: usize = summary.levels.iter().map(|e| e.1).sum();
    assert_eq!(sum, summary.total_lines);

    let keep = vec!["INFO".to_string()];
    let filtered = parse_log(&sample_log(), None, Some(&keep));
    let sum: usize = filtered.levels.iter().map(|e| e.1).sum();
    assert_eq!(sum, filtered.total_lines);
    assert_eq!(filtered.levels, vec![("INFO".to_string(), 2usize)]);
}

#[test]
fn timestamps_come_from_the_first_and_last_passing_lines() {
    let summary = parse_log(&sample_log(), None, None);
    assert_eq!(summary.start_timestamp, Some("t1".to_string()));
    assert_eq!(summary.stop_timestamp, Some("t4".to_string()));

    let keep = vec!["WARN".to_string(), "ERROR".to_string()];
    let filtered = parse_log(&sample_log(), None, Some(&keep));
    assert_eq!(filtered.start_timestamp, Some("t2".to_string()));
    assert_eq!(filtered.stop_timestamp, Some("t4".to_string()));
}

#[test]
fn domains_are_unique_in_first_seen_order() {
    let summary = parse_log(&sample_log(), None, None);
    assert_eq!(
        summary.unique_domains,
        vec!["core".to_string(), "net".to_string(), "disk".to_string()]
    );
}

#[test]
fn domains_are_empty_exactly_when_nothing_passes() {
    let keep = vec!["FATAL".to_string()];
    let summary = parse_log(&sample_log(), None, Some(&keep));
    assert_eq!(summary.total_lines, 0);
    assert!(summary.unique_domains.is_empty());
}

#[test]
fn crlf_terminators_parse_like_bare_newlines() {
    let text = "[t1] [INFO] [core] a\r\n[t2] [WARN] [core] b\r\n";
    let summary = parse_log(text, None, None);
    assert_eq!(summary.total_lines, 2);
    assert_eq!(summary.stop_timestamp, Some("t2".to_string()));
}

#[test]
fn filter_logs_returns_passing_lines_and_their_summary() {
    let request = FilterRequest {
        log_text: sample_log(),
        domains: Some(vec!["core".to_string()]),
        levels: None,
    };
    let response = filter_logs(&request);
    assert_eq!(
        response.filtered_lines,
        vec!["[t1] [INFO] [core] start".to_string(), "[t3] [INFO] [core] work".to_string()]
    );
    assert_eq!(response.summary.total_lines, 2);
    assert_eq!(response.summary.unique_domains, vec!["core".to_string()]);
    assert_eq!(response.summary.levels, vec![("INFO".to_string(), 2usize)]);
}

#[test]
fn filter_logs_with_no_filters_keeps_every_matching_line() {
    let request = FilterRequest { log_text: sample_log(), domains: None, levels: None };
    let response = filter_logs(&request);
    assert_eq!(response.filtered_lines.len(), 4);
    assert_eq!(response.summary.total_lines, 4);
}
