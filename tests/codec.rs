use marks::{parse_line, parse_spec, write_spec, Directive, FileMarkSpec, ParseError, SpecType, ALL_MAGIC};
use SpecType::{Line, Range};

#[test]
fn scenario_comment_line_and_range() {
    let s = parse_spec(b"# reviewed\n3\n10-15\n").unwrap();
    assert_eq!(s, FileMarkSpec::Partial(vec![Line(2), Range(9, 14)]));
    assert!(s.match_line_offset(2));
    assert!(s.match_line_offset(9));
    assert!(s.match_line_offset(13));
    assert!(!s.match_line_offset(14));
    assert!(!s.match_line_offset(20));
}

#[test]
fn scenario_all_marker() {
    let mut s = parse_spec(b"-*- all -*-\n").unwrap();
    assert_eq!(s, FileMarkSpec::All);
    assert!(s.match_line_offset(0));
    assert!(s.match_line_offset(65535));
    s.remove(5);
    assert_eq!(s, FileMarkSpec::Partial(vec![Range(0, 5), Range(6, 65535)]));
    assert!(!s.match_line_offset(5));
    assert!(s.match_line_offset(0));
    assert!(s.match_line_offset(65534));
}

#[test]
fn marker_stops_reading_even_after_intervals_and_before_bad_lines() {
    assert_eq!(parse_spec(b"1\n2-4\nsee -*- all -*- here\nnot a number\n").unwrap(), FileMarkSpec::All);
}

#[test]
fn marker_in_a_comment_is_a_comment() {
    assert_eq!(parse_spec(b"# -*- all -*-\n4\n").unwrap(), FileMarkSpec::Partial(vec![Line(3)]));
}

#[test]
fn blank_lines_and_comments_are_skipped_anywhere() {
    let s = parse_spec(b"\n# a\n5\n\n# b\n7-9\n#\n").unwrap();
    assert_eq!(s, FileMarkSpec::Partial(vec![Line(4), Range(6, 8)]));
}

#[test]
fn empty_text_is_an_empty_list() {
    assert_eq!(parse_spec(b"").unwrap(), FileMarkSpec::Partial(vec![]));
}

#[test]
fn last_line_needs_no_newline() {
    assert_eq!(parse_spec(b"2\n12").unwrap(), FileMarkSpec::Partial(vec![Line(1), Line(11)]));
}

#[test]
fn blanks_around_numbers_are_allowed() {
    let s = parse_spec(b"  3  \n 10 -  15\t\r\n").unwrap();
    assert_eq!(s, FileMarkSpec::Partial(vec![Line(2), Range(9, 14)]));
}

#[test]
fn zero_and_one_both_give_offset_zero() {
    assert_eq!(parse_spec(b"0\n1\n0-3\n").unwrap(), FileMarkSpec::Partial(vec![Line(0), Line(0), Range(0, 2)]));
}

#[test]
fn leading_text_before_the_numbers_is_not_read() {
    assert_eq!(parse_line(b"line 42"), Ok(Directive::Mark(Line(41))));
    assert_eq!(parse_line(b"x5-7"), Ok(Directive::Mark(Range(4, 6))));
    assert_eq!(parse_line(b"1-2-3"), Ok(Directive::Mark(Range(1, 2))));
    assert_eq!(parse_line(b"3-x12"), Ok(Directive::Mark(Line(11))));
}

#[test]
fn reversed_range_is_kept_as_written() {
    assert_eq!(parse_spec(b"15-10\n").unwrap(), FileMarkSpec::Partial(vec![Range(14, 9)]));
}

#[test]
fn a_line_without_a_trailing_number_is_invalid() {
    assert_eq!(parse_spec(b"3\nhello\n4\n"), Err(ParseError::InvalidFormat));
    assert_eq!(parse_spec(b"7-\n"), Err(ParseError::InvalidFormat));
    assert_eq!(parse_line(b"   "), Err(ParseError::InvalidFormat));
}

#[test]
fn a_number_above_the_domain_is_an_error() {
    assert_eq!(parse_spec(b"65536\n"), Err(ParseError::NumberTooLarge));
    assert_eq!(parse_spec(b"1-99999\n"), Err(ParseError::NumberTooLarge));
    assert_eq!(parse_spec(b"70000-2\n"), Err(ParseError::NumberTooLarge));
    assert_eq!(parse_spec(b"65535\n").unwrap(), FileMarkSpec::Partial(vec![Line(65534)]));
    assert_eq!(parse_spec(b"000000000000012\n").unwrap(), FileMarkSpec::Partial(vec![Line(11)]));
}

#[test]
fn parse_line_kinds() {
    assert_eq!(parse_line(b""), Ok(Directive::Skip));
    assert_eq!(parse_line(b"# note"), Ok(Directive::Skip));
    assert_eq!(parse_line(ALL_MAGIC.as_bytes()), Ok(Directive::Everything));
    assert_eq!(parse_line(b"8"), Ok(Directive::Mark(Line(7))));
}

#[test]
fn write_all_is_the_marker_line() {
    assert_eq!(write_spec(&FileMarkSpec::All), b"-*- all -*-\n".to_vec());
}

#[test]
fn write_shifts_both_bounds_up_by_one() {
    let s = FileMarkSpec::Partial(vec![Line(2), Range(9, 14), Line(0), Range(0, 65535), Line(65535)]);
    assert_eq!(write_spec(&s), b"3\n10-15\n1\n1-65535\n65535\n".to_vec());
}

#[test]
fn write_of_empty_list_is_empty() {
    assert_eq!(write_spec(&FileMarkSpec::Partial(vec![])), Vec::<u8>::new());
}

#[test]
fn round_trip_of_canonical_specs() {
    let mut s = FileMarkSpec::Partial(vec![Range(40, 45), Line(3), Line(100), Range(4, 9)]);
    s.optimize();
    let back = parse_spec(&write_spec(&s)).unwrap();
    assert_eq!(back, s);
    assert_eq!(parse_spec(&write_spec(&FileMarkSpec::All)).unwrap(), FileMarkSpec::All);
}

#[test]
fn round_trip_loses_the_last_offset_of_a_run_reaching_the_end() {
    let s = FileMarkSpec::Partial(vec![Range(65530, 65535)]);
    let back = parse_spec(&write_spec(&s)).unwrap();
    assert_eq!(back, FileMarkSpec::Partial(vec![Range(65530, 65534)]));
    assert!(!back.match_line_offset(65534));
}

#[test]
fn unicode_white_space_around_numbers_is_allowed() {
    assert_eq!(parse_spec("5\u{a0}\n".as_bytes()).unwrap(), FileMarkSpec::Partial(vec![Line(4)]));
    let s = parse_spec("\u{3000}10\u{2003}-\u{2003}15\u{85}\n".as_bytes()).unwrap();
    assert_eq!(s, FileMarkSpec::Partial(vec![Range(9, 14)]));
    assert_eq!(parse_line("7\u{1680}\u{202f}".as_bytes()), Ok(Directive::Mark(Line(6))));
}

#[test]
fn a_number_with_other_decimal_digits_is_invalid() {
    assert_eq!(parse_spec("\u{663}5\n".as_bytes()), Err(ParseError::InvalidFormat));
    assert_eq!(parse_spec("\u{663}-5\n".as_bytes()), Err(ParseError::InvalidFormat));
    assert_eq!(parse_spec("1-\u{663}5\n".as_bytes()), Err(ParseError::InvalidFormat));
    assert_eq!(parse_spec("\u{ff15}\n".as_bytes()), Err(ParseError::InvalidFormat));
    assert_eq!(parse_spec("12\u{1d7ce}\n".as_bytes()), Err(ParseError::InvalidFormat));
}

#[test]
fn other_digits_apart_from_the_number_are_not_read() {
    assert_eq!(parse_spec("x\u{663} 5\n".as_bytes()).unwrap(), FileMarkSpec::Partial(vec![Line(4)]));
}
