use marks::{directory_status, file_status, hex_name, parse_spec, spec_file_name, FileMarkSpec, FileMarkStatus};

#[test]
fn file_status_counts_marked_lines_by_zero_based_offset() {
    let spec = parse_spec(b"1-4\n").unwrap();
    let st = file_status(&spec, 10);
    assert_eq!(st, FileMarkStatus { marked: 3, line_no: 10 });
    let none = parse_spec(b"").unwrap();
    assert_eq!(file_status(&none, 5), FileMarkStatus { marked: 0, line_no: 5 });
    assert_eq!(file_status(&FileMarkSpec::All, 7), FileMarkStatus { marked: 7, line_no: 7 });
    assert_eq!(file_status(&FileMarkSpec::All, 0), FileMarkStatus { marked: 0, line_no: 0 });
}

#[test]
fn scenario_directory_sums_its_entries() {
    let a = file_status(&parse_spec(b"1-4\n").unwrap(), 10);
    let b = file_status(&parse_spec(b"").unwrap(), 5);
    assert_eq!(directory_status(&vec![a, b]), Some(FileMarkStatus { marked: 3, line_no: 15 }));
}

#[test]
fn empty_directory_has_no_lines() {
    assert_eq!(directory_status(&vec![]), Some(FileMarkStatus { marked: 0, line_no: 0 }));
}

#[test]
fn directory_total_above_the_domain_is_refused() {
    let big = FileMarkStatus { marked: 40000, line_no: 40000 };
    assert_eq!(directory_status(&vec![big, big]), None);
    let lines_only = FileMarkStatus { marked: 0, line_no: 65535 };
    let one = FileMarkStatus { marked: 0, line_no: 1 };
    assert_eq!(directory_status(&vec![lines_only, one]), None);
    assert_eq!(directory_status(&vec![lines_only]), Some(lines_only));
}

#[test]
fn hex_name_writes_two_lowercase_digits_per_byte() {
    assert_eq!(hex_name(&[10, 20, 30, 0, 255]), b"0a141e00ff".to_vec());
    assert_eq!(hex_name(&[]), Vec::<u8>::new());
}

#[test]
fn spec_file_name_is_the_sha256_of_the_path_in_hex() {
    assert_eq!(
        spec_file_name(b"abc"),
        b"ba7816bf8f01cfea414140de5dae2223b00361a396177a9cb410ff61f20015ad".to_vec()
    );
    assert_eq!(
        spec_file_name(b""),
        b"e3b0c44298fc1c149afbf4c8996fb92427ae41e4649b934ca495991b7852b855".to_vec()
    );
}
