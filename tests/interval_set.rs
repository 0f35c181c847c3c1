use marks::{FileMarkSpec, SpecType};
use SpecType::{Line, Range};

fn partial(v: Vec<SpecType>) -> FileMarkSpec {
    FileMarkSpec::Partial(v)
}

#[test]
fn all_matches_every_offset() {
    let s = FileMarkSpec::All;
    for o in [0u16, 1, 100, 65534, 65535] {
        assert!(s.match_line_offset(o));
    }
}

#[test]
fn partial_matches_any_interval_in_any_order() {
    let a = partial(vec![Line(3), Range(10, 12), Line(20)]);
    let b = partial(vec![Line(20), Line(3), Range(10, 12), Line(3)]);
    for o in 0u16..30 {
        let want = o == 3 || o == 10 || o == 11 || o == 20;
        assert_eq!(a.match_line_offset(o), want);
        assert_eq!(b.match_line_offset(o), want);
    }
}

#[test]
fn empty_and_reversed_ranges_match_nothing() {
    let s = partial(vec![Range(5, 5), Range(9, 4)]);
    for o in 0u16..12 {
        assert!(!s.match_line_offset(o));
    }
}

#[test]
fn add_appends_a_line_and_marks_it() {
    let mut s = partial(vec![Range(0, 3)]);
    s.add(40);
    assert_eq!(s, partial(vec![Range(0, 3), Line(40)]));
    assert!(s.match_line_offset(40));
    let mut all = FileMarkSpec::All;
    all.add(7);
    assert_eq!(all, FileMarkSpec::All);
}

#[test]
fn scenario_add_twice_then_optimize() {
    let mut s = partial(vec![]);
    s.add(7);
    s.add(7);
    assert_eq!(s, partial(vec![Line(7), Line(7)]));
    assert!(s.match_line_offset(7));
    s.optimize();
    assert_eq!(s, partial(vec![Line(7)]));
}

#[test]
fn remove_from_all_leaves_two_ranges() {
    let mut s = FileMarkSpec::All;
    s.remove(5);
    assert_eq!(s, partial(vec![Range(0, 5), Range(6, 65535)]));
    assert!(!s.match_line_offset(5));
    assert!(s.match_line_offset(0));
    assert!(s.match_line_offset(65534));
}

#[test]
fn remove_a_line() {
    let mut s = partial(vec![Line(1), Line(4), Line(9)]);
    s.remove(4);
    assert_eq!(s, partial(vec![Line(1), Line(9)]));
    assert!(!s.match_line_offset(4));
}

#[test]
fn remove_shrinks_a_range_at_either_end() {
    let mut s = partial(vec![Range(10, 15)]);
    s.remove(10);
    assert_eq!(s, partial(vec![Range(11, 15)]));
    s.remove(14);
    assert_eq!(s, partial(vec![Range(11, 14)]));
    assert!(!s.match_line_offset(10));
    assert!(!s.match_line_offset(14));
}

#[test]
fn remove_splits_a_range_in_two() {
    let mut s = partial(vec![Line(0), Range(10, 15), Line(30)]);
    s.remove(12);
    assert_eq!(s, partial(vec![Line(0), Range(10, 12), Range(13, 15), Line(30)]));
    assert!(!s.match_line_offset(12));
    assert!(s.match_line_offset(11));
    assert!(s.match_line_offset(13));
}

#[test]
fn remove_from_one_offset_range_leaves_a_line() {
    let mut s = partial(vec![Range(8, 9)]);
    s.remove(8);
    assert_eq!(s, partial(vec![Line(8)]));
    assert!(s.match_line_offset(8));
}

#[test]
fn remove_edits_only_the_first_covering_interval() {
    let mut s = partial(vec![Line(2), Range(0, 5), Line(2)]);
    s.remove(2);
    assert_eq!(s, partial(vec![Range(0, 5), Line(2)]));
    assert!(s.match_line_offset(2));
}

#[test]
fn remove_of_unmarked_offset_changes_nothing() {
    let mut s = partial(vec![Line(1), Range(3, 6)]);
    s.remove(2);
    assert_eq!(s, partial(vec![Line(1), Range(3, 6)]));
}

#[test]
fn optimize_sorts_and_merges_runs() {
    let mut s = partial(vec![Line(9), Range(2, 5), Line(5), Line(0), Range(3, 4), Line(11)]);
    s.optimize();
    assert_eq!(s, partial(vec![Line(0), Range(2, 6), Line(9), Line(11)]));
}

#[test]
fn optimize_encodes_a_run_at_the_end_as_a_range() {
    let mut s = partial(vec![Line(65534), Line(3)]);
    s.optimize();
    assert_eq!(s, partial(vec![Line(3), Range(65534, 65535)]));
    let mut t = partial(vec![Range(65000, 65535)]);
    t.optimize();
    assert_eq!(t, partial(vec![Range(65000, 65535)]));
}

#[test]
fn optimize_is_idempotent() {
    let mut s = partial(vec![Range(20, 30), Line(1), Range(25, 40), Line(2), Line(41)]);
    s.optimize();
    let once = format!("{:?}", s);
    assert_eq!(s, partial(vec![Range(1, 3), Range(20, 40), Line(41)]));
    s.optimize();
    assert_eq!(format!("{:?}", s), once);
}

#[test]
fn optimize_keeps_the_marked_offsets() {
    let raw = vec![Range(100, 104), Line(7), Line(8), Range(6, 7), Line(103), Range(50, 50)];
    let before = partial(raw.clone());
    let mut after = partial(raw);
    after.optimize();
    for o in 0u16..200 {
        assert_eq!(before.match_line_offset(o), after.match_line_offset(o));
    }
}

#[test]
fn optimize_leaves_all_alone() {
    let mut s = FileMarkSpec::All;
    s.optimize();
    assert_eq!(s, FileMarkSpec::All);
}

#[test]
fn optimize_of_empty_list_is_empty() {
    let mut s = partial(vec![Range(4, 2)]);
    s.optimize();
    assert_eq!(s, partial(vec![]));
}

#[test]
fn rebuild_gives_the_canonical_list() {
    let v = FileMarkSpec::rebuild_partial_specs(&vec![Line(4), Line(5), Line(6), Line(8)]);
    assert_eq!(v, vec![Range(4, 7), Line(8)]);
}

#[test]
fn covers_offset_reads_one_interval() {
    assert!(Line(3).covers_offset(3));
    assert!(!Line(3).covers_offset(4));
    assert!(Range(3, 5).covers_offset(4));
    assert!(!Range(3, 5).covers_offset(5));
}
