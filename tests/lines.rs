use loc_count::lines::{count_lines, LineCounter};

#[test]
fn empty_input_has_no_lines() {
    assert_eq!(count_lines(b""), 0);
}

#[test]
fn terminated_lines_are_counted() {
    assert_eq!(count_lines(b"one\ntwo\nthree\n"), 3);
}

#[test]
fn unterminated_last_line_is_counted() {
    assert_eq!(count_lines(b"one\ntwo\nthree"), 3);
    assert_eq!(count_lines(b"1\n2\n3\n4\n5"), 5);
}

#[test]
fn lone_newlines_are_empty_lines() {
    assert_eq!(count_lines(b"\n\n\n"), 3);
    assert_eq!(count_lines(b"\n"), 1);
    assert_eq!(count_lines(b"x"), 1);
}

#[test]
fn chunked_feed_matches_whole() {
    let text = b"alpha\nbeta\ngamma\ndelta";
    let mut c = LineCounter::new();
    c.feed(&text[0..3]);
    c.feed(&text[3..6]);
    c.feed(&text[6..]);
    assert_eq!(c.count(), count_lines(text));
    assert_eq!(c.count(), 4);
}

#[test]
fn chunk_split_at_newline() {
    let mut c = LineCounter::new();
    c.feed(b"ab");
    assert_eq!(c.count(), 1);
    c.feed(b"\n");
    assert_eq!(c.count(), 1);
    c.feed(b"cd\n");
    assert_eq!(c.count(), 2);
    c.feed(b"");
    assert_eq!(c.count(), 2);
}
