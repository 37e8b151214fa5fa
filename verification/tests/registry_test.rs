use logstream::registry::get_user_log;
use logstream::registry::remove_user_log;
use logstream::registry::save_user_log;
use logstream::registry::LogRegistry;

#[test]
fn save_then_get_returns_the_resource() {
    let mut registry = LogRegistry::new();
    save_user_log(&mut registry, "session-1", "/tmp/one.log".to_string());
    assert_eq!(get_user_log(&registry, "session-1"), Some("/tmp/one.log".to_string()));
    assert_eq!(get_user_log(&registry, "session-2"), None);
}

#[test]
fn save_overwrites_an_existing_session() {
    let mut registry = LogRegistry::new();
    save_user_log(&mut registry, "session-1", "/tmp/old.log".to_string());
    save_user_log(&mut registry, "session-1", "/tmp/new.log".to_string());
    assert_eq!(get_user_log(&registry, "session-1"), Some("/tmp/new.log".to_string()));
}

#[test]
fn close_then_get_reports_not_found() {
    let mut registry = LogRegistry::new();
    save_user_log(&mut registry, "session-1", "/tmp/one.log".to_string());
    save_user_log(&mut registry, "session-2", "/tmp/two.log".to_string());
    let removed = remove_user_log(&mut registry, "session-1");
    assert_eq!(removed, Some("/tmp/one.log".to_string()));
    assert_eq!(get_user_log(&registry, "session-1"), None);
    // Other sessions stay untouched.
    assert_eq!(get_user_log(&registry, "session-2"), Some("/tmp/two.log".to_string()));
}

#[test]
fn close_of_an_unknown_session_is_a_noop() {
    let mut registry = LogRegistry::new();
    save_user_log(&mut registry, "session-1", "/tmp/one.log".to_string());
    assert_eq!(remove_user_log(&mut registry, "missing"), None);
    assert_eq!(get_user_log(&registry, "session-1"), Some("/tmp/one.log".to_string()));
}

#[test]
fn close_is_idempotent() {
    let mut registry = LogRegistry::new();
    save_user_log(&mut registry, "session-1", "/tmp/one.log".to_string());
    assert_eq!(remove_user_log(&mut registry, "session-1"), Some("/tmp/one.log".to_string()));
    assert_eq!(remove_user_log(&mut registry, "session-1"), None);
    assert_eq!(remove_user_log(&mut registry, "session-1"), None);
}
