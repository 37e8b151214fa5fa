use logstream::parser::classify_line;
use logstream::text::split_text_lines;
use logstream::text::str_contains;
use logstream::text::str_equal;
use logstream::text::trim_str;

#[test]
fn classify_extracts_all_four_fields() {
    let record = classify_line("[t1] [INFO] [core] msg here").unwrap();
    assert_eq!(record.timestamp, "t1");
    assert_eq!(record.level, "INFO");
    assert_eq!(record.domain, "core");
    assert_eq!(record.message, "msg here");
}

#[test]
fn classify_allows_an_empty_message() {
    let record = classify_line("[t1] [INFO] [core]").unwrap();
    assert_eq!(record.message, "");
}

#[test]
fn classify_consumes_spaces_before_the_message() {
    let record = classify_line("[t1] [INFO] [core]    spaced out").unwrap();
    assert_eq!(record.message, "spaced out");
}

#[test]
fn classify_keeps_spaces_and_open_brackets_inside_fields() {
    let record = classify_line("[2025-11-23 10:00:00] [IN[FO] [core] x").unwrap();
    assert_eq!(record.timestamp, "2025-11-23 10:00:00");
    assert_eq!(record.level, "IN[FO");
}

#[test]
fn classify_rejects_malformed_lines() {
    assert!(classify_line("").is_none());
    assert!(classify_line("plain text").is_none());
    assert!(classify_line("[] [INFO] [core] empty field").is_none());
    assert!(classify_line("[t1][INFO][core] no separators").is_none());
    assert!(classify_line("[t1]  [INFO] [core] double space").is_none());
    assert!(classify_line("[t1] [INFO] missing domain").is_none());
    assert!(classify_line("[t1] [INFO] [core unclosed").is_none());
}

#[test]
fn lines_split_at_newlines_with_optional_carriage_returns() {
    assert_eq!(split_text_lines(""), Vec::<String>::new());
    assert_eq!(split_text_lines("a\nb"), vec!["a".to_string(), "b".to_string()]);
    assert_eq!(split_text_lines("a\r\nb\r\n"), vec!["a".to_string(), "b".to_string()]);
    assert_eq!(split_text_lines("a\n\nb"), vec!["a".to_string(), "".to_string(), "b".to_string()]);
    assert_eq!(split_text_lines("tail\n"), vec!["tail".to_string()]);
}

#[test]
fn substring_search_is_exact_and_accepts_the_empty_needle() {
    assert!(str_contains("connection lost", "lost"));
    assert!(str_contains("connection lost", ""));
    assert!(!str_contains("connection lost", "Lost"));
    assert!(!str_contains("abc", "abcd"));
}

#[test]
fn trimming_removes_spaces_and_tabs_at_both_ends() {
    assert_eq!(trim_str("  a b\t"), "a b");
    assert_eq!(trim_str("\t \t"), "");
    assert_eq!(trim_str("x"), "x");
    assert!(str_equal(trim_str("  x  ").as_str(), "x"));
}
