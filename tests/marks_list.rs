use marks::parse::{Entry, Parser};
use marks::{Marking, Spec, Target, Type};

#[test]
fn parse_test() {
    let mut parser = Parser::new("".to_string());

    parser.lines.push("src/".to_string());
    parser.lines.push("src/main.rs".to_string());
    parser.lines.push("src/main.rs:10".to_string());
    parser.lines.push("src/main.rs:10-20".to_string());
    parser.lines.push("src/main.rs:/hoge/".to_string());
    parser.lines.push("src/main.rs:10 'ignore".to_string());
    parser.lines.push("src/main.rs:10-20 'ignore".to_string());
    parser.lines.push("src/ 'ignore".to_string());
    parser.lines.push("src/ # comment".to_string());

    // What the file system says of the bare paths: `src/` is a directory,
    // `src/main.rs` a file.
    let kinds = vec![Some(true), Some(false), None, None, None, None, None, Some(true), Some(true)];

    let want = vec![
        Marking::new(Target::Dir("src/".to_string()), Type::Mark),
        Marking::new(Target::File("src/main.rs".to_string()), Type::Mark),
        Marking::new(Target::FileSpec("src/main.rs".to_string(), Spec::Line(10)), Type::Mark),
        Marking::new(Target::FileSpec("src/main.rs".to_string(), Spec::Range(10, 20)), Type::Mark),
        Marking::new(
            Target::FileSpec("src/main.rs".to_string(), Spec::Regex("hoge".to_string())),
            Type::Mark,
        ),
        Marking::new(Target::FileSpec("src/main.rs".to_string(), Spec::Line(10)), Type::Ignore),
        Marking::new(Target::FileSpec("src/main.rs".to_string(), Spec::Range(10, 20)), Type::Ignore),
        Marking::new(Target::Dir("src/".to_string()), Type::Ignore),
        Marking::new(Target::Dir("src/".to_string()), Type::Mark),
    ];

    assert_eq!(parser.parse(&kinds), want);
}

#[test]
fn parse_line_reads_each_form() {
    assert_eq!(Parser::parse_line("a/b.rs"), Some(Entry::Path("a/b.rs".to_string(), Type::Mark)));
    assert_eq!(
        Parser::parse_line("a.rs : 7 "),
        Some(Entry::Part("a.rs".to_string(), Spec::Line(7), Type::Mark))
    );
    assert_eq!(
        Parser::parse_line("a.rs:3 - 9\t'ignore"),
        Some(Entry::Part("a.rs".to_string(), Spec::Range(3, 9), Type::Ignore))
    );
    assert_eq!(
        Parser::parse_line("a.rs:/x/y/  # note"),
        Some(Entry::Part("a.rs".to_string(), Spec::Regex("x/y".to_string()), Type::Mark))
    );
}

#[test]
fn lines_without_a_path_or_with_a_huge_number_are_dropped() {
    assert_eq!(Parser::parse_line("# only a comment"), None);
    assert_eq!(Parser::parse_line(""), None);
    assert_eq!(Parser::parse_line("   "), None);
    assert_eq!(Parser::parse_line("a.rs:99999999999999999999999"), None);
}

#[test]
fn ignore_needs_to_end_the_line() {
    assert_eq!(Parser::parse_line("src/ 'ignore "), Some(Entry::Path("src/".to_string(), Type::Mark)));
}

#[test]
fn bare_paths_of_unknown_kind_are_left_out() {
    let mut parser = Parser::new("list".to_string());
    parser.lines.push("missing/path".to_string());
    parser.lines.push("x.rs:4".to_string());
    let got = parser.parse(&vec![None, None]);
    assert_eq!(got, vec![Marking::new(Target::FileSpec("x.rs".to_string(), Spec::Line(4)), Type::Mark)]);
    assert_eq!(parser.spec_file, "list");
}

#[test]
fn unicode_white_space_and_other_digits_in_the_list() {
    assert_eq!(
        Parser::parse_line("a.rs:\u{a0}7\u{3000}"),
        Some(Entry::Part("a.rs".to_string(), Spec::Line(7), Type::Mark))
    );
    assert_eq!(Parser::parse_line("a.rs:\u{663}"), None);
    assert_eq!(Parser::parse_line("a.rs:1-\u{663}2"), None);
}
