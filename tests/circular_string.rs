use links::circular_string::CircularString;
use links::lines::find_boundary;

#[test]
fn find_aligned() {
    let buffer = b"hello\nworld\n";
    let size = 12;
    let boundary = find_boundary(buffer, size);
    assert_eq!(boundary, 12);
}

#[test]
fn find_unaligned() {
    let buffer = b"hello\nworld\n";
    let size = 3;
    let boundary = find_boundary(buffer, size);
    assert_eq!(boundary, 6);
}

#[test]
fn find_non_ascii() {
    // the o with diaeresis takes two bytes, so the first line feed is at offset 6
    let buffer = "hell\u{f6}\nworld\n";
    let size = 7;
    let boundary = find_boundary(buffer.as_bytes(), size);
    assert_eq!(boundary, 7);
}

#[test]
fn test_with_no_rotation() {
    let mut cs = CircularString::with_capacity(12);
    cs.push("hello");
    assert_eq!(cs.to_string(), "hello\n");
    cs.push("world");
    assert_eq!(cs.to_string(), "hello\nworld\n");
    assert_eq!(cs.layout(), (12, 0, 0));
}

#[test]
fn test_circular_string() {
    let mut cs = CircularString::with_capacity(12);
    cs.push("hello");
    cs.push("world");
    // the buffer is full: the next push wraps around
    cs.push("aha");
    assert_eq!(cs.to_string(), "world\naha\n");
    assert_eq!(cs.layout(), (4, 2, 6));
}

#[test]
fn test_writing_in_the_gap() {
    let mut cs = CircularString::with_capacity(12);
    cs.push("hello");
    cs.push("world");
    cs.push("aha");
    cs.push("!");
    assert_eq!(cs.to_string(), "world\naha\n!\n");
    assert_eq!(cs.layout(), (6, 0, 6));
}

#[test]
fn test_writing_over_all_l2() {
    let mut cs = CircularString::with_capacity(12);
    cs.push("hello");
    cs.push("world");
    cs.push("aha");
    cs.push("!");
    cs.push("foo");
    assert_eq!(cs.to_string(), "aha\n!\nfoo\n");
    assert_eq!(cs.layout(), (10, 2, 0));
}

#[test]
fn test_discarding_leftover_l2() {
    let mut cs = CircularString::with_capacity(13);
    cs.push("hello");
    cs.push("world");
    cs.push("aha");
    assert_eq!(cs.layout(), (4, 2, 6));
    cs.push("12345678");
    assert_eq!(cs.to_string(), "aha\n12345678\n");
    assert_eq!(cs.layout(), (13, 0, 0));
}

#[test]
fn test_iter() {
    let mut cs = CircularString::with_capacity(12);
    cs.push("hello");
    cs.push("world");
    cs.push("aha");
    cs.push("!");
    cs.push("foo");
    let lines = cs.lines();
    let mut iter = lines.iter().map(|s| s.as_str());
    assert_eq!(iter.next(), Some("aha"));
    assert_eq!(iter.next(), Some("!"));
    assert_eq!(iter.next(), Some("foo"));
    assert_eq!(iter.next(), None);
}

#[test]
fn find_boundary_without_line_feed_takes_everything() {
    assert_eq!(find_boundary(b"abcdef", 2), 6);
    assert_eq!(find_boundary(b"ab\ncd\n", 0), 3);
    assert_eq!(find_boundary(b"", 1), 0);
}

#[test]
fn new_buffer_is_empty() {
    let cs = CircularString::with_capacity(8);
    assert_eq!(cs.capacity(), 8);
    assert_eq!(cs.len(), 0);
    assert_eq!(cs.layout(), (0, 8, 0));
    assert_eq!(cs.to_string(), "");
    assert!(cs.lines().is_empty());
}

#[test]
fn push_keeps_an_existing_line_feed() {
    let mut cs = CircularString::with_capacity(10);
    cs.push("abc\n");
    assert_eq!(cs.to_string(), "abc\n");
    assert_eq!(cs.len(), 4);
}

#[test]
fn push_of_empty_text_stores_an_empty_line() {
    let mut cs = CircularString::with_capacity(4);
    cs.push("");
    assert_eq!(cs.to_string(), "\n");
    assert_eq!(cs.lines(), vec![String::new()]);
}

#[test]
fn line_as_long_as_the_capacity_replaces_everything() {
    let mut cs = CircularString::with_capacity(6);
    cs.push("ab");
    cs.push("abcde");
    assert_eq!(cs.to_string(), "abcde\n");
    assert_eq!(cs.layout(), (6, 0, 0));
}

#[test]
fn wraparound_keeps_whole_lines_only() {
    // after every push, what is stored is a suffix of everything pushed,
    // cut just after a line feed, and the lines keep their order
    let mut cs = CircularString::with_capacity(16);
    let mut history = String::new();
    for i in 0..40 {
        let line = format!("line{}", i % 7);
        cs.push(&line);
        history.push_str(&line);
        history.push('\n');
        let text = cs.to_string();
        assert!(history.ends_with(&text));
        let cut = history.len() - text.len();
        assert!(cut == 0 || history.as_bytes()[cut - 1] == b'\n');
        assert!(text.ends_with(&format!("{}\n", line)));
        let (l1, gap, l2) = cs.layout();
        assert!(l1 + gap + l2 <= cs.capacity());
        assert_eq!(cs.len(), text.len());
        let rebuilt: String = cs.lines().iter().map(|l| format!("{}\n", l)).collect();
        assert_eq!(rebuilt, text);
        assert!(cs.lines().iter().all(|l| !l.contains('\n')));
    }
}

#[test]
fn non_ascii_text_survives_wraparound() {
    let mut cs = CircularString::with_capacity(12);
    cs.push("h\u{e9}llo");
    cs.push("w\u{f6}rld");
    cs.push("\u{e5}h");
    assert_eq!(cs.to_string(), "w\u{f6}rld\n\u{e5}h\n");
    assert_eq!(cs.lines(), vec!["w\u{f6}rld".to_string(), "\u{e5}h".to_string()]);
}
