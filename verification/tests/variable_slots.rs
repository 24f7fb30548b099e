use arco::variable_slots::{binary_search, VariableSlots};

#[test]
fn bisection_finds_present_indices_only() {
    let sorted = [1, 4, 9, 12];
    assert_eq!(binary_search(&sorted, 9), Some(2));
    assert_eq!(binary_search(&sorted, 1), Some(0));
    assert_eq!(binary_search(&sorted, 5), None);
    assert_eq!(binary_search(&[], 0), None);
}

#[test]
fn variable_ids_by_cell() {
    let compact = VariableSlots::Compact { start_var_id: 10, count: 3 };
    assert_eq!(compact.variable_id_at_flat(2), Some(12));
    assert_eq!(compact.variable_id_at_flat(3), None);
    assert_eq!(compact.active_len(), 3);
    assert_eq!(compact.storage_kind(), "compact");

    let sparse = VariableSlots::Sparse { active_indices: vec![1, 3], var_ids: vec![7, 8], len: 5 };
    assert_eq!(sparse.variable_id_at_flat(3), Some(8));
    assert_eq!(sparse.variable_id_at_flat(2), None);
    assert_eq!(sparse.active_len(), 2);
    assert_eq!(sparse.len(), 5);
    assert_eq!(
        sparse.slots(),
        vec![None, Some((7, 0)), None, Some((8, 1)), None]
    );

    let full = VariableSlots::Full { slots: vec![Some(4), None, Some(6)] };
    assert_eq!(full.variable_id_at_flat(0), Some(4));
    assert_eq!(full.variable_id_at_flat(1), None);
    assert_eq!(full.active_len(), 2);
    assert_eq!(full.slots(), vec![Some((4, 0)), None, Some((6, 2))]);
    assert_eq!(full.storage_kind(), "full");
}
