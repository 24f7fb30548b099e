use arco::profile::{bucket_label, column_profile, sort_by_rank, NNZ_BUCKETS};

#[test]
fn column_statistics() {
    let columns = [(0u32, 0usize), (1, 1), (2, 7), (3, 7), (4, 1500), (5, 2)];
    let profile = column_profile(&columns, 3, 5);
    assert_eq!(profile.num_coefficients, 1517);
    assert_eq!(profile.max_column_nnz, 1500);
    assert_eq!(profile.min_nonzero_column_nnz, Some(1));
    assert_eq!(profile.dense_columns, 3);
    assert_eq!(profile.buckets, vec![1, 1, 1, 0, 2, 0, 0, 0, 0, 1]);
    assert_eq!(profile.top_columns, vec![(4, 1500), (2, 7), (3, 7)]);
}

#[test]
fn top_columns_replace_the_first_least_dense_candidate() {
    let columns = [(7u32, 3usize), (1, 3), (2, 9), (3, 3), (4, 1)];
    let profile = column_profile(&columns, 2, 100);
    assert_eq!(profile.top_columns, vec![(2, 9), (1, 3)]);
    let none = column_profile(&columns, 0, 100);
    assert!(none.top_columns.is_empty());
}

#[test]
fn empty_matrix_profile() {
    let profile = column_profile(&[], 20, 100);
    assert_eq!(profile.num_coefficients, 0);
    assert_eq!(profile.max_column_nnz, 0);
    assert_eq!(profile.min_nonzero_column_nnz, None);
    assert_eq!(profile.buckets, vec![0; NNZ_BUCKETS]);
}

#[test]
fn total_saturates() {
    let profile = column_profile(&[(0, usize::MAX), (1, 5)], 1, 1);
    assert_eq!(profile.num_coefficients, usize::MAX);
}

#[test]
fn ranks_order_by_density_then_id() {
    assert_eq!(sort_by_rank(vec![(3, 1), (1, 5), (2, 5), (0, 0)]), vec![(1, 5), (2, 5), (3, 1), (0, 0)]);
}

#[test]
fn bucket_labels() {
    let labels: Vec<&str> = (0..NNZ_BUCKETS).map(bucket_label).collect();
    assert_eq!(
        labels,
        vec!["eq_0", "eq_1", "eq_2", "le_5", "le_10", "le_50", "le_100", "le_500", "le_1000", "gt_1000"]
    );
}
