use brood_core::coverage::{
    branch_instrumented, branch_snapshot, instrumented, note_branches, note_instrumented, record,
    record_branch, reset, snapshot, Coverage,
};

#[test]
fn hits_come_out_by_file_then_line() {
    let mut c = Coverage::new();
    record(&mut c, "b.blsp", 9);
    record(&mut c, "a.blsp", 3);
    record(&mut c, "b.blsp", 2);
    record(&mut c, "b.blsp", 9);
    let s = snapshot(&c);
    assert_eq!(
        s,
        vec![
            ("a.blsp".to_string(), vec![3]),
            ("b.blsp".to_string(), vec![2, 9]),
        ]
    );
}

#[test]
fn instrumented_lines_union_per_file_and_an_empty_note_still_lists_the_file() {
    let mut c = Coverage::new();
    note_instrumented(&mut c, "m.blsp", &[5, 1, 5]);
    note_instrumented(&mut c, "m.blsp", &[2]);
    note_instrumented(&mut c, "e.blsp", &[]);
    assert_eq!(
        instrumented(&c),
        vec![
            ("e.blsp".to_string(), vec![]),
            ("m.blsp".to_string(), vec![1, 2, 5]),
        ]
    );
    assert!(snapshot(&c).is_empty(), "the denominator is not a hit");
}

#[test]
fn branch_edges_order_by_line_col_then_false_before_true() {
    let mut c = Coverage::new();
    record_branch(&mut c, "x", 4, 2, true);
    record_branch(&mut c, "x", 4, 2, false);
    record_branch(&mut c, "x", 1, 9, true);
    record_branch(&mut c, "x", 4, 1, true);
    record_branch(&mut c, "x", 4, 2, true);
    assert_eq!(
        branch_snapshot(&c),
        vec![(
            "x".to_string(),
            vec![(1, 9, true), (4, 1, true), (4, 2, false), (4, 2, true)]
        )]
    );
    note_branches(&mut c, "x", &[(7, 1), (3, 3), (7, 1)]);
    assert_eq!(branch_instrumented(&c), vec![("x".to_string(), vec![(3, 3), (7, 1)])]);
}

#[test]
fn reset_drops_hits_and_keeps_the_denominators() {
    let mut c = Coverage::new();
    record(&mut c, "f", 1);
    record_branch(&mut c, "f", 1, 1, true);
    note_instrumented(&mut c, "f", &[1, 2]);
    note_branches(&mut c, "f", &[(1, 1)]);
    reset(&mut c);
    assert!(snapshot(&c).is_empty());
    assert!(branch_snapshot(&c).is_empty());
    assert_eq!(instrumented(&c), vec![("f".to_string(), vec![1, 2])]);
    assert_eq!(branch_instrumented(&c), vec![("f".to_string(), vec![(1, 1)])]);
}
