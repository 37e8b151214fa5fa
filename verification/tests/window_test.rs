use logstream::filter::LogFilter;
use logstream::window::filtered_events;
use logstream::window::ContextWindowState;
use logstream::window::StreamEvent;

fn filter_levels(levels: &[&str], context: usize) -> LogFilter {
    LogFilter {
        levels: Some(levels.iter().map(|s| s.to_string()).collect()),
        domains: None,
        keywords: None,
        context,
    }
}

fn pairs(evs: Vec<StreamEvent>) -> Vec<(String, bool)> {
    evs.into_iter().map(|e| (e.line, e.is_context)).collect()
}

/// Five lines of which only the middle one matches.
fn five_lines() -> String {
    let lines = vec![
        "[t1] [INFO] [core] a",
        "[t2] [INFO] [core] b",
        "[t3] [ERROR] [core] c",
        "[t4] [INFO] [core] d",
        "[t5] [INFO] [core] e",
    ];
    lines.join("\n")
}

#[test]
fn context_zero_is_plain_filtering() {
    let evs = filtered_events(&five_lines(), &filter_levels(&["ERROR"], 0));
    assert_eq!(pairs(evs), vec![("[t3] [ERROR] [core] c".to_string(), false)]);
}

#[test]
fn context_one_single_match_emits_neighbours() {
    let evs = filtered_events(&five_lines(), &filter_levels(&["ERROR"], 1));
    assert_eq!(
        pairs(evs),
        vec![
            ("[t2] [INFO] [core] b".to_string(), true),
            ("[t3] [ERROR] [core] c".to_string(), false),
            ("[t4] [INFO] [core] d".to_string(), true),
        ]
    );
}

#[test]
fn overlapping_windows_emit_shared_lines_once() {
    // Matches at positions 1 and 3 with context 2: every line lies in both
    // windows, yet each is emitted exactly once, in input order.
    let lines = vec![
        "[t1] [INFO] [core] a",
        "[t2] [ERROR] [core] b",
        "[t3] [INFO] [core] c",
        "[t4] [ERROR] [core] d",
        "[t5] [INFO] [core] e",
    ];
    let text = lines.join("\n");
    let evs = filtered_events(&text, &filter_levels(&["ERROR"], 2));
    assert_eq!(
        pairs(evs),
        vec![
            ("[t1] [INFO] [core] a".to_string(), true),
            ("[t2] [ERROR] [core] b".to_string(), false),
            ("[t3] [INFO] [core] c".to_string(), true),
            ("[t4] [ERROR] [core] d".to_string(), false),
            ("[t5] [INFO] [core] e".to_string(), true),
        ]
    );
}

#[test]
fn trailing_buffered_lines_are_discarded_at_end_of_input() {
    // The match sits first: the two following lines are forward context, and
    // the lines beyond the window are never emitted.
    let lines = vec![
        "[t1] [ERROR] [core] a",
        "[t2] [INFO] [core] b",
        "[t3] [INFO] [core] c",
        "[t4] [INFO] [core] d",
        "[t5] [INFO] [core] e",
    ];
    let text = lines.join("\n");
    let evs = filtered_events(&text, &filter_levels(&["ERROR"], 2));
    assert_eq!(
        pairs(evs),
        vec![
            ("[t1] [ERROR] [core] a".to_string(), false),
            ("[t2] [INFO] [core] b".to_string(), true),
            ("[t3] [INFO] [core] c".to_string(), true),
        ]
    );
}

#[test]
fn a_later_match_resets_the_forward_window() {
    // Matches at positions 0 and 2 with context 2: the second match renews
    // the forward window, so position 4 is still context.
    let lines = vec![
        "[t1] [ERROR] [core] a",
        "[t2] [INFO] [core] b",
        "[t3] [ERROR] [core] c",
        "[t4] [INFO] [core] d",
        "[t5] [INFO] [core] e",
    ];
    let text = lines.join("\n");
    let evs = filtered_events(&text, &filter_levels(&["ERROR"], 2));
    assert_eq!(
        pairs(evs),
        vec![
            ("[t1] [ERROR] [core] a".to_string(), false),
            ("[t2] [INFO] [core] b".to_string(), true),
            ("[t3] [ERROR] [core] c".to_string(), false),
            ("[t4] [INFO] [core] d".to_string(), true),
            ("[t5] [INFO] [core] e".to_string(), true),
        ]
    );
}

#[test]
fn unmatched_lines_are_never_emitted_even_unfiltered() {
    let text = "garbage line\n[t1] [INFO] [core] ok\nanother stray";
    let all = LogFilter { levels: None, domains: None, keywords: None, context: 0 };
    let evs = filtered_events(text, &all);
    assert_eq!(pairs(evs), vec![("[t1] [INFO] [core] ok".to_string(), false)]);
}

#[test]
fn stream_example_end_to_end() {
    let text = "[t1] [INFO] [core] hello\n[t2] [ERROR] [core] boom\n[t3] [INFO] [core] bye";
    let evs = filtered_events(text, &filter_levels(&["ERROR"], 1));
    assert_eq!(
        pairs(evs),
        vec![
            ("[t1] [INFO] [core] hello".to_string(), true),
            ("[t2] [ERROR] [core] boom".to_string(), false),
            ("[t3] [INFO] [core] bye".to_string(), true),
        ]
    );
}

#[test]
fn step_by_step_batches() {
    let mut state = ContextWindowState::new(1);
    let b1 = state.step("a".to_string(), false);
    assert!(b1.is_empty());
    let b2 = state.step("b".to_string(), true);
    assert_eq!(pairs(b2), vec![("a".to_string(), true), ("b".to_string(), false)]);
    let b3 = state.step("c".to_string(), false);
    assert_eq!(pairs(b3), vec![("c".to_string(), true)]);
    let b4 = state.step("d".to_string(), false);
    assert!(b4.is_empty());
    let tail = state.finish();
    assert!(tail.is_empty());
}

#[test]
fn backward_buffer_keeps_only_the_most_recent_lines() {
    // With context 1 only the line directly before the match survives the
    // bounded buffer; earlier lines were evicted and stay unsent.
    let mut state = ContextWindowState::new(1);
    assert!(state.step("a".to_string(), false).is_empty());
    assert!(state.step("b".to_string(), false).is_empty());
    let batch = state.step("c".to_string(), true);
    assert_eq!(pairs(batch), vec![("b".to_string(), true), ("c".to_string(), false)]);
}

#[test]
fn encode_plain_event() {
    let ev = StreamEvent { line: "hello".to_string(), is_context: false };
    assert_eq!(ev.encode(), "{\"line\":\"hello\",\"context\":false}");
}

#[test]
fn encode_escapes_quotes_backslashes_and_controls() {
    let ev = StreamEvent { line: "a\"b\\c\nd\te\u{1}f".to_string(), is_context: true };
    assert_eq!(
        ev.encode(),
        "{\"line\":\"a\\\"b\\\\c\\nd\\te\\u0001f\",\"context\":true}"
    );
}
