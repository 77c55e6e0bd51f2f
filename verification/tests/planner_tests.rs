use renum::entry::Entry;
use renum::planner::{entries, log10, plan};

#[test]
fn test_log10() {
    assert_eq!(log10(0), 1);
    assert_eq!(log10(1), 1);
    assert_eq!(log10(9), 1);
    assert_eq!(log10(10), 2);
    assert_eq!(log10(99), 2);
    assert_eq!(log10(100), 3);
    assert_eq!(log10(999), 3);
}

#[test]
fn test_entries() {
    let paths: Vec<Vec<u8>> = vec![
        b"c_2.txt".to_vec(),
        b"c_1.txt".to_vec(),
        b"a_1.txt".to_vec(),
        b"a_2.txt".to_vec(),
        b"b.txt".to_vec(),
    ];
    let got: Vec<(Vec<u8>, Option<usize>)> = entries(paths)
        .iter()
        .map(|e| (e.file_name(), e.num()))
        .collect();
    assert_eq!(
        got,
        vec![
            (b"a_2.txt".to_vec(), Some(2)),
            (b"a_1.txt".to_vec(), Some(1)),
            (b"c_2.txt".to_vec(), Some(2)),
            (b"c_1.txt".to_vec(), Some(1)),
        ],
    );
}

#[test]
fn test_exec() {
    let paths: Vec<Vec<u8>> = vec![
        b"c.txt".to_vec(),
        b"d".to_vec(),
        b"a.txt".to_vec(),
        b"a_1.txt".to_vec(),
        b"a_2.txt".to_vec(),
    ];
    let es = entries(paths);
    let pairs = plan(&es);
    assert_eq!(
        pairs,
        vec![
            (b"a_2.txt".to_vec(), b"a_3.txt".to_vec()),
            (b"a_1.txt".to_vec(), b"a_2.txt".to_vec()),
            (b"a.txt".to_vec(), b"a_1.txt".to_vec()),
        ],
    );
}

#[test]
fn width_grows_when_shift_crosses_a_power_of_ten() {
    let es = entries(vec![b"x_9.txt".to_vec(), b"x.txt".to_vec()]);
    let pairs = plan(&es);
    assert_eq!(
        pairs,
        vec![
            (b"x_9.txt".to_vec(), b"x_10.txt".to_vec()),
            (b"x.txt".to_vec(), b"x_01.txt".to_vec()),
        ],
    );
}

#[test]
fn shift_is_exactly_plus_one() {
    let es = entries(vec![b"v_41.txt".to_vec(), b"v_7.txt".to_vec()]);
    let pairs = plan(&es);
    assert_eq!(
        pairs,
        vec![
            (b"v_41.txt".to_vec(), b"v_42.txt".to_vec()),
            (b"v_7.txt".to_vec(), b"v_08.txt".to_vec()),
        ],
    );
}

#[test]
fn groups_form_by_key_not_by_separator() {
    let es = entries(vec![
        b"a-1.txt".to_vec(),
        b"a_2.txt".to_vec(),
        b"ab.txt".to_vec(),
    ]);
    let pairs = plan(&es);
    assert_eq!(
        pairs,
        vec![
            (b"a_2.txt".to_vec(), b"a_3.txt".to_vec()),
            (b"a-1.txt".to_vec(), b"a-2.txt".to_vec()),
        ],
    );
}

#[test]
fn groups_without_numbers_are_untouched() {
    let es = entries(vec![b"b.txt".to_vec(), b"readme".to_vec()]);
    assert!(es.is_empty());
    let pairs = plan(&es);
    assert!(pairs.is_empty());
}

#[test]
fn directories_are_kept_in_rename_targets() {
    let es = entries(vec![b"d/p_2.md".to_vec(), b"d/p.md".to_vec()]);
    let pairs = plan(&es);
    assert_eq!(
        pairs,
        vec![
            (b"d/p_2.md".to_vec(), b"d/p_3.md".to_vec()),
            (b"d/p.md".to_vec(), b"d/p_1.md".to_vec()),
        ],
    );
}

#[test]
fn plan_of_one_entry_without_number_is_empty() {
    let e = Entry {
        p: b"solo.txt".to_vec(),
        b: b"solo".to_vec(),
        a: Some(b".txt".to_vec()),
        n: None,
    };
    let pairs = plan(&vec![e]);
    assert!(pairs.is_empty());
}
