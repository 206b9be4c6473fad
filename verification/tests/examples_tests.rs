use schedviz_rust::examples::{example, EXAMPLE_COUNT};

#[test]
fn the_first_example_is_the_five_process_table() {
    let e = example(0).unwrap();
    assert_eq!(
        e.rows,
        vec![
            ("A", "0", "3"),
            ("B", "2", "6"),
            ("C", "4", "4"),
            ("D", "6", "5"),
            ("E", "8", "2"),
        ]
    );
    assert_eq!(e.quantum, 1);
}

#[test]
fn example_eight_and_its_quantum() {
    let e = example(8).unwrap();
    assert_eq!(e.rows.len(), 5);
    assert_eq!(e.rows[0], ("A", "0", "10"));
    assert_eq!(e.rows[4], ("E", "12", "3"));
    assert_eq!(e.quantum, 2);
}

#[test]
fn examples_stop_at_the_count() {
    assert_eq!(EXAMPLE_COUNT, 11);
    assert!(example(10).is_some());
    assert!(example(11).is_none());
    assert!(example(u32::MAX).is_none());
    for n in 0..EXAMPLE_COUNT {
        let e = example(n).unwrap();
        assert!(!e.rows.is_empty());
        assert!((1..=6).contains(&e.quantum));
    }
}
