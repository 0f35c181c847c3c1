use marks::{Line, LineKind, Marked, Marking, Spec, Target, Type};

#[test]
fn marked_iteration() {
    let mut lines = Vec::with_capacity(100);
    lines.push(Line::new("hogehoge".to_string()));
    lines.push(Line::new("fugafuga".to_string()));
    lines.push(Line::new("piyopiyo".to_string()));

    let mut file = Marked::new(String::new(), lines);
    for line in file.lines.iter_mut() {
        if line.text == "hogehoge" {
            line.set(&Type::Ignore)
        }
        line.set(&Type::Mark)
    }

    for line in file.lines.iter() {
        assert_eq!(line.mark, true);
    }
    assert_eq!(file.lines[0].ignore, true);
    assert_eq!(file.lines[1].ignore, false);
    assert_eq!(file.lines[2].ignore, false);
}

#[test]
fn line_flags_start_clear_and_accessors_read_them() {
    let mut line = Line::new("x".to_string());
    assert!(!line.marked());
    assert!(!line.ignored());
    line.set(&Type::Ignore);
    assert!(line.ignored());
    assert!(!line.marked());
    line.set(&Type::Mark);
    assert!(line.marked());
    assert_eq!(line.text, "x");
}

#[test]
fn marked_len_counts_lines() {
    let file = Marked::new("a.rs".to_string(), vec![Line::new("a".to_string()), Line::new("b".to_string())]);
    assert_eq!(file.len(), 2);
    assert!(!file.marked);
    assert!(!file.ignore);
    assert_eq!(file.filename, "a.rs");
}

#[test]
fn marking_new_keeps_its_parts() {
    let m = Marking::new(Target::FileSpec("src/main.rs".to_string(), Spec::Range(10, 20)), Type::Ignore);
    assert_eq!(m.target, Target::FileSpec("src/main.rs".to_string(), Spec::Range(10, 20)));
    assert_eq!(m.mark_type, Type::Ignore);
}

#[test]
fn line_kind_prefers_ignored_over_marked() {
    let mut lines = vec![Line::new("a".to_string()), Line::new("b".to_string()), Line::new("c".to_string())];
    lines[0].set(&Type::Ignore);
    lines[0].set(&Type::Mark);
    lines[1].set(&Type::Mark);
    let mut file = Marked::new("f".to_string(), lines);
    assert_eq!(file.line_kind(0), LineKind::Ignored);
    assert_eq!(file.line_kind(1), LineKind::Marked);
    assert_eq!(file.line_kind(2), LineKind::Plain);
    file.marked = true;
    assert_eq!(file.line_kind(2), LineKind::Marked);
    file.ignore = true;
    assert_eq!(file.line_kind(1), LineKind::Ignored);
}
