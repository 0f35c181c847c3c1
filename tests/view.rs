use marks::ViewCursor;

fn lines(v: &[&str]) -> Vec<String> {
    v.iter().map(|s| s.to_string()).collect()
}

#[test]
fn new_view_starts_at_the_top() {
    let v = ViewCursor::new(100, 5, 80);
    assert_eq!(v, ViewCursor { line_count: 100, offset: 0, cursor: 0, padding: 5, height: 80 });
}

#[test]
fn jump_clamps_to_the_last_line() {
    let mut v = ViewCursor::new(10, 2, 5);
    v.jump_cursor(50);
    assert_eq!(v.cursor, 9);
    let mut empty = ViewCursor::new(0, 2, 5);
    empty.jump_cursor(3);
    assert_eq!(empty.cursor, 0);
    assert_eq!(empty.offset, 0);
}

#[test]
fn moving_down_scrolls_to_keep_padding_below() {
    let mut v = ViewCursor::new(1000, 5, 20);
    v.jump_cursor(14);
    assert_eq!(v.offset, 0);
    v.jump_cursor(15);
    assert_eq!(v.offset, 1);
    v.inc_cursor(10);
    assert_eq!(v.cursor, 25);
    assert_eq!(v.offset, 11);
}

#[test]
fn moving_up_scrolls_to_keep_padding_above() {
    let mut v = ViewCursor { line_count: 1000, offset: 100, cursor: 110, padding: 5, height: 20 };
    v.dec_cursor(6);
    assert_eq!(v.cursor, 104);
    assert_eq!(v.offset, 99);
    v.dec_cursor(500);
    assert_eq!(v.cursor, 0);
    assert_eq!(v.offset, 0);
}

#[test]
fn inc_saturates_before_clamping() {
    let mut v = ViewCursor { line_count: 65535, offset: 0, cursor: 65000, padding: 5, height: 80 };
    v.inc_cursor(u16::MAX);
    assert_eq!(v.cursor, 65534);
}

#[test]
fn search_finds_the_nearest_match_either_way() {
    let text = lines(&["fn a", "let x", "fn b", "let y", "fn c"]);
    let mut v = ViewCursor::new(5, 1, 3);
    v.jump_cursor(2);
    assert_eq!(v.next_matched_index(&text, "fn"), Some(4));
    assert_eq!(v.prev_matched_index(&text, "fn"), Some(0));
    assert_eq!(v.next_matched_index(&text, "let"), Some(3));
    assert_eq!(v.prev_matched_index(&text, "let"), Some(1));
    assert_eq!(v.next_matched_index(&text, "zzz"), None);
    assert!(v.current_line_contains(&text, "b"));
    assert!(!v.current_line_contains(&text, "x"));
}

#[test]
fn search_stops_at_the_ends() {
    let text = lines(&["a", "b", "a"]);
    let mut v = ViewCursor::new(3, 0, 3);
    assert_eq!(v.prev_matched_index(&text, "a"), None);
    v.jump_cursor(2);
    assert_eq!(v.next_matched_index(&text, "a"), None);
}
