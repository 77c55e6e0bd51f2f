use renum::entry::Entry;

#[test]
fn test_entry_parse_file_name() {
    assert_eq!(
        Entry::parse_file_name(&b"aaaa.jpg".to_vec()),
        (b"aaaa".to_vec(), Some(b".jpg".to_vec()), None)
    );
    assert_eq!(
        Entry::parse_file_name(&b"aaaa_01".to_vec()),
        (b"aaaa_".to_vec(), None, Some(1))
    );
    assert_eq!(
        Entry::parse_file_name(&b"aaaa_1.jpg".to_vec()),
        (b"aaaa_".to_vec(), Some(b".jpg".to_vec()), Some(1))
    );
    assert_eq!(
        Entry::parse_file_name(&b"_001".to_vec()),
        (b"_".to_vec(), None, Some(1))
    );
    assert_eq!(
        Entry::parse_file_name(&b"001".to_vec()),
        (b"001".to_vec(), None, None)
    );
}

#[test]
fn test_entry_file_name_before_sep() {
    assert_eq!(
        Entry {
            p: Vec::new(),
            b: b"aaa_".to_vec(),
            a: None,
            n: None,
        }
        .file_name_before_sep(),
        b"aaa".to_vec(),
    );
    assert_eq!(
        Entry {
            p: Vec::new(),
            b: b"aaa".to_vec(),
            a: None,
            n: None,
        }
        .file_name_before_sep(),
        b"aaa".to_vec(),
    );
}

#[test]
fn test_entry_file_name_sep() {
    assert_eq!(
        Entry {
            p: Vec::new(),
            b: b"aaa_".to_vec(),
            a: None,
            n: None,
        }
        .file_name_sep(),
        Some(b'_'),
    );
    assert_eq!(
        Entry {
            p: Vec::new(),
            b: b"aaa".to_vec(),
            a: None,
            n: None,
        }
        .file_name_sep(),
        None,
    );
}

#[test]
fn test_entry_new_path() {
    assert_eq!(
        Entry {
            p: Vec::new(),
            b: b"aaa_".to_vec(),
            a: Some(b".txt".to_vec()),
            n: Some(1),
        }
        .new_path(true, None, 1),
        Some(b"aaa_2.txt".to_vec()),
    );
    assert_eq!(
        Entry {
            p: b"parent/aaa".to_vec(),
            b: b"aaa".to_vec(),
            a: None,
            n: Some(3),
        }
        .new_path(true, None, 3),
        Some(b"parent/aaa004".to_vec()),
    );
    assert_eq!(
        Entry {
            p: b"parent/aaa".to_vec(),
            b: b"aaa".to_vec(),
            a: Some(b".jpg".to_vec()),
            n: None,
        }
        .new_path(true, Some(b'_'), 3),
        Some(b"parent/aaa_001.jpg".to_vec()),
    );
}

#[test]
fn parse_edge_cases() {
    assert_eq!(
        Entry::parse_file_name(&b"".to_vec()),
        (b"".to_vec(), None, None)
    );
    assert_eq!(
        Entry::parse_file_name(&b"001.jpg".to_vec()),
        (b"001.jpg".to_vec(), None, None)
    );
    assert_eq!(
        Entry::parse_file_name(&b"a1.".to_vec()),
        (b"a1.".to_vec(), None, None)
    );
    assert_eq!(
        Entry::parse_file_name(&b"a.b.txt".to_vec()),
        (b"a".to_vec(), Some(b".b.txt".to_vec()), None)
    );
}

#[test]
fn parse_number_too_large_for_machine_word() {
    assert_eq!(
        Entry::parse_file_name(&b"a_99999999999999999999".to_vec()),
        (b"a_".to_vec(), None, None)
    );
}

#[test]
fn parse_round_trip_of_generated_name() {
    let e = Entry {
        p: Vec::new(),
        b: b"img_".to_vec(),
        a: Some(b".png".to_vec()),
        n: Some(6),
    };
    let name = e.new_path(true, None, 3).unwrap();
    assert_eq!(name, b"img_007.png".to_vec());
    assert_eq!(
        Entry::parse_file_name(&name),
        (b"img_".to_vec(), Some(b".png".to_vec()), Some(7))
    );
}

#[test]
fn from_path_keeps_directory_and_parses_name() {
    let e = Entry::from_path(b"dir/sub/name_3.txt".to_vec());
    assert_eq!(e.old_path(), &b"dir/sub/name_3.txt".to_vec());
    assert_eq!(e.file_name(), b"name_3.txt".to_vec());
    assert_eq!(e.num(), Some(3));
    assert_eq!(e.new_path(true, None, 1), Some(b"dir/sub/name_4.txt".to_vec()));
}

#[test]
fn new_path_without_number_needs_shift_and_separator() {
    let e = Entry {
        p: Vec::new(),
        b: b"a".to_vec(),
        a: None,
        n: None,
    };
    assert_eq!(e.new_path(true, None, 1), None);
    assert_eq!(e.new_path(false, Some(b'_'), 1), None);
}
