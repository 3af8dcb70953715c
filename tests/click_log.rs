use links::circular_string::CircularString;
use links::click_log::{compute_link_stats, AppendError, ClickLog};

#[test]
fn test_compute_link_stats() {
    let mut buf = CircularString::with_capacity(1000);
    buf.push("pref https://www.google.com");
    buf.push("pref https://www.google.com");
    buf.push("pref https://www.microsoft.com");
    let stats = compute_link_stats(&buf);
    assert_eq!(stats.len(), 2);
}

#[test]
fn link_stats_take_the_last_field_and_skip_lines_without_space() {
    let mut buf = CircularString::with_capacity(100);
    buf.push("1 u id a");
    buf.push("nospace");
    buf.push("2 v id b");
    buf.push("3 w id a");
    let stats = compute_link_stats(&buf);
    assert_eq!(stats, vec!["a".to_string(), "b".to_string()]);
}

#[test]
fn prepare_append_builds_the_click_line() {
    let log = ClickLog::new(100);
    let line = log.prepare_append(1700000000123, "alice", "id-1", "https://x.org").unwrap();
    assert_eq!(line, "1700000000123 alice id-1 https://x.org\n");
    let zero = log.prepare_append(0, "u", "i", "h").unwrap();
    assert_eq!(zero, "0 u i h\n");
}

#[test]
fn prepare_append_rejects_a_line_feed_in_a_field() {
    let log = ClickLog::new(100);
    assert_eq!(log.prepare_append(1, "al\nice", "id", "h"), Err(AppendError::LineFeedInField));
    assert_eq!(log.prepare_append(1, "alice", "id", "h\n"), Err(AppendError::LineFeedInField));
}

#[test]
fn prepare_append_rejects_a_line_longer_than_the_window() {
    let log = ClickLog::new(8);
    // "1 u i h\n" is exactly 8 bytes
    assert_eq!(log.prepare_append(1, "u", "i", "h"), Ok("1 u i h\n".to_string()));
    assert_eq!(log.prepare_append(12, "u", "i", "h"), Err(AppendError::TooLong));
}

#[test]
fn failed_write_leaves_the_window_unchanged() {
    let mut log = ClickLog::new(64);
    let first = log.prepare_append(1, "u", "i", "a").unwrap();
    assert_eq!(log.complete_append(&first, true), Ok(()));
    let second = log.prepare_append(2, "u", "i", "b").unwrap();
    assert_eq!(log.complete_append(&second, false), Err(AppendError::WriteFailed));
    assert_eq!(log.snapshot_lines(), vec!["1 u i a".to_string()]);
}

#[test]
fn complete_append_rejects_a_line_longer_than_the_window() {
    let mut log = ClickLog::new(4);
    assert_eq!(log.complete_append("abcd", true), Err(AppendError::TooLong));
    assert!(log.snapshot_lines().is_empty());
    assert_eq!(log.complete_append("abc", true), Ok(()));
    assert_eq!(log.snapshot_lines(), vec!["abc".to_string()]);
}

#[test]
fn rehydrate_matches_pushing_the_lines_in_order() {
    let lines: Vec<String> =
        vec!["hello", "world", "aha", "!", "foo"].into_iter().map(String::from).collect();
    let mut log = ClickLog::new(12);
    log.rehydrate(&lines);
    let mut direct = CircularString::with_capacity(12);
    for l in &lines {
        direct.push(l);
    }
    assert_eq!(log.window().layout(), direct.layout());
    assert_eq!(log.window().to_string(), direct.to_string());
    assert_eq!(log.snapshot_lines(), direct.lines());
}

#[test]
fn rehydrate_passes_over_a_line_longer_than_the_window() {
    let lines: Vec<String> =
        vec!["ab", "this line is too long", "cd"].into_iter().map(String::from).collect();
    let mut log = ClickLog::new(8);
    log.rehydrate(&lines);
    assert_eq!(log.snapshot_lines(), vec!["ab".to_string(), "cd".to_string()]);
}

#[test]
fn snapshot_lines_after_appends_and_eviction() {
    let mut log = ClickLog::new(12);
    for l in ["hello", "world", "aha"] {
        assert_eq!(log.complete_append(l, true), Ok(()));
    }
    assert_eq!(log.snapshot_lines(), vec!["world".to_string(), "aha".to_string()]);
    assert_eq!(log.window().to_string(), "world\naha\n");
}

#[test]
fn click_log_path_is_in_the_storage_dir() {
    let config = links::config::ApConfig { storage_dir: "/var/d\u{e4}ta".to_string(), click_buffer_size: 10 };
    assert_eq!(config.click_log_path(), "/var/d\u{e4}ta/click.log");
}
