use arco::compact::{element_ids, linear_term_ids};

#[test]
fn element_ids_shift_every_term() {
    assert_eq!(element_ids(&[10, 100], 0), vec![10, 100]);
    assert_eq!(element_ids(&[10, 100], 3), vec![13, 103]);
    assert_eq!(element_ids(&[], 5), Vec::<u32>::new());
}

#[test]
fn linear_term_ids_run_term_by_term() {
    assert_eq!(linear_term_ids(&[10, 100], 3), vec![10, 11, 12, 100, 101, 102]);
    assert_eq!(linear_term_ids(&[7], 0), Vec::<u32>::new());
    assert_eq!(linear_term_ids(&[u32::MAX - 1], 2), vec![u32::MAX - 1, u32::MAX]);
}
