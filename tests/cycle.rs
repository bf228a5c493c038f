use gameson::detect_minimal_cycle;

#[test]
fn test_detect_minimal_cycle() {
    let deps = vec![(1, vec![2]), (2, vec![3]), (3, vec![1])];
    let cycle = detect_minimal_cycle(&deps);
    assert_eq!(cycle, vec![1, 2, 3, 1]);

    let deps = vec![
        (1, vec![2, 3]),
        (2, vec![4, 5]),
        (3, vec![6, 7]),
        (4, vec![8]),
        (5, vec![9]),
        (6, vec![10]),
        (7, vec![11]),
        (8, vec![]),
        (9, vec![]),
        (10, vec![12]),
        (11, vec![]),
        (12, vec![3]),
    ];
    let cycle = detect_minimal_cycle(&deps);
    assert_eq!(cycle, vec![3, 6, 10, 12, 3]);

    let deps = vec![
        (1, vec![2, 3]),
        (2, vec![4, 5]),
        (3, vec![6, 7]),
        (4, vec![]),
        (5, vec![]),
        (6, vec![]),
        (7, vec![]),
    ];
    let cycle = detect_minimal_cycle(&deps);
    assert_eq!(cycle, Vec::<u64>::default());
}

#[test]
fn cycle_of_one_node_on_itself() {
    assert_eq!(detect_minimal_cycle(&vec![(7, vec![7])]), vec![7, 7]);
}

#[test]
fn empty_dependencies_have_no_cycle() {
    assert_eq!(detect_minimal_cycle(&Vec::new()), Vec::<u64>::new());
}

#[test]
fn dependency_on_unknown_key_is_no_cycle() {
    assert_eq!(detect_minimal_cycle(&vec![(1, vec![99]), (2, vec![1])]), Vec::<u64>::new());
}

#[test]
fn search_starts_from_the_smallest_key() {
    let deps = vec![(30, vec![10]), (10, vec![20]), (20, vec![30])];
    assert_eq!(detect_minimal_cycle(&deps), vec![10, 20, 30, 10]);
}
