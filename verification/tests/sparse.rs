use arco::sparse::{diff_active_indices, diff_sources, pair_sorted_indices, reduced_sparse_flat_index};
use arco::sparse::{check_sparse_source, normalized_shift, rolled_entries, SparseSourceError};
use arco::sparse::{
    checked_product_from, diff_sparse_rows, merge_sorted_indices, sparse_rolled_flat_index,
    SparseDiffContribution, SparseDiffError, SparseDiffMapping,
};

fn variable_diff(
    active_indices: &[usize],
    variable_ids: &[u32],
) -> Result<arco::sparse::SparseDiffRows, SparseDiffError> {
    // Variable sources are never zero.
    let zero = vec![false; variable_ids.len()];
    diff_sparse_rows(&[4], 0, active_indices, &zero)
}

#[test]
fn sparse_diff_output_storage_uses_exact_capacity() {
    let result = variable_diff(&[1, 2, 3], &[10, 11, 12]).expect("sparse diff should succeed");
    assert_eq!(result.rows.len(), 3);
    assert_eq!(result.rows.capacity(), 3);
    assert_eq!(result.shape, vec![3]);
}

#[test]
fn sparse_diff_rejects_malformed_active_indices() {
    assert!(variable_diff(&[1, 2, 3], &[10, 11]).is_err());
    assert!(variable_diff(&[2, 1], &[10, 11]).is_err());
    assert!(variable_diff(&[1, 1], &[10, 11]).is_err());
    assert!(variable_diff(&[4], &[10]).is_err());
}

#[test]
fn sparse_diff_errors_name_the_offending_input() {
    assert_eq!(
        variable_diff(&[1, 2, 3], &[10, 11]).err(),
        Some(SparseDiffError::SourceLengthMismatch { source_len: 2, active_len: 3 })
    );
    assert_eq!(
        variable_diff(&[2, 1], &[10, 11]).err(),
        Some(SparseDiffError::NotStrictlyIncreasing)
    );
    assert_eq!(
        variable_diff(&[1, 4], &[10, 11]).err(),
        Some(SparseDiffError::ActiveIndexOutOfRange { index: 4, position: 1, total: 4 })
    );
    let huge = usize::MAX / 2 + 1;
    assert_eq!(
        diff_sparse_rows(&[2, huge, 2], 0, &[], &[]).err(),
        Some(SparseDiffError::ShapeTooLarge)
    );
}

#[test]
fn sparse_diff_pairs_each_cell_with_its_neighbours() {
    let result = variable_diff(&[1, 2, 3], &[10, 11, 12]).unwrap();
    assert_eq!(
        result.rows,
        vec![
            (0, SparseDiffContribution::Positive(0)),
            (1, SparseDiffContribution::Both { positive: 1, negative: 0 }),
            (2, SparseDiffContribution::Both { positive: 2, negative: 1 }),
        ]
    );
    // a lone entry feeds the cell before it positively and the cell at it negatively
    let lone = diff_sparse_rows(&[4], 0, &[2], &[false]).unwrap();
    assert_eq!(
        lone.rows,
        vec![(1, SparseDiffContribution::Positive(0)), (2, SparseDiffContribution::Negative(0))]
    );
}

#[test]
fn sparse_diff_leaves_out_zero_entries() {
    let result = diff_sparse_rows(&[4], 0, &[1, 2], &[true, false]).unwrap();
    assert_eq!(
        result.rows,
        vec![(1, SparseDiffContribution::Positive(1)), (2, SparseDiffContribution::Negative(1))]
    );
    let all_zero = diff_sparse_rows(&[4], 0, &[1, 2], &[true, true]).unwrap();
    assert!(all_zero.rows.is_empty());
}

#[test]
fn sparse_diff_along_inner_axis_stays_within_rows() {
    // shape 2 x 3, differences along the last axis: output shape 2 x 2
    let result = diff_sparse_rows(&[2, 3], 1, &[2, 3], &[false, false]).unwrap();
    assert_eq!(result.shape, vec![2, 2]);
    assert_eq!(
        result.rows,
        vec![(1, SparseDiffContribution::Positive(0)), (2, SparseDiffContribution::Negative(1))]
    );
}

#[test]
fn sparse_diff_of_short_axis_is_empty() {
    let result = diff_sparse_rows(&[1, 3], 0, &[0, 2], &[false, false]).unwrap();
    assert!(result.rows.is_empty());
    assert_eq!(result.shape, vec![0, 3]);
}

#[test]
fn sparse_diff_mapping_geometry() {
    let mapping = SparseDiffMapping::new(&[2, 3, 4], 1).unwrap();
    assert_eq!(mapping.axis_size, 3);
    assert_eq!(mapping.source_stride, 4);
    assert_eq!(mapping.source_block, 12);
    let mut pos = 0;
    // index 5 has coordinate 1 along the axis, block 0: positive cell 1, negative cell 5
    assert_eq!(mapping.next(&[5], &mut pos, true), Some((1, 0)));
    let mut pos = 0;
    assert_eq!(mapping.next(&[5], &mut pos, false), Some((5, 0)));
}

#[test]
fn checked_products_fail_on_overflow() {
    assert_eq!(checked_product_from(&[2, 3, 4], 0), Some(24));
    assert_eq!(checked_product_from(&[2, 3, 4], 1), Some(12));
    assert_eq!(checked_product_from(&[2, 3, 4], 3), Some(1));
    assert_eq!(checked_product_from(&[usize::MAX, 2, 0], 0), None);
}

#[test]
fn merge_keeps_shared_indices_once() {
    assert_eq!(merge_sorted_indices(&[1, 3, 5], &[2, 3, 6]), vec![1, 2, 3, 5, 6]);
    assert_eq!(merge_sorted_indices(&[], &[4]), vec![4]);
    assert_eq!(merge_sorted_indices(&[], &[]), Vec::<usize>::new());
}

#[test]
fn rolling_moves_one_coordinate_cyclically() {
    let shape = [2, 3];
    let strides = [3, 1];
    // cell (1, 2) rolled by one along the last axis wraps to (1, 0)
    assert_eq!(sparse_rolled_flat_index(5, &shape, &strides, 1, 1), 3);
    // rolled back by one it lands on (1, 1)
    assert_eq!(sparse_rolled_flat_index(5, &shape, &strides, 1, -1), 4);
    // rolling the first axis by three is rolling it by one
    assert_eq!(sparse_rolled_flat_index(1, &shape, &strides, 0, 3), 4);
}

#[test]
fn pairing_sparse_entries_by_index() {
    assert_eq!(
        pair_sorted_indices(&[1, 4], &[1, 2, 5]),
        vec![(1, Some(0), Some(0)), (2, None, Some(1)), (4, Some(1), None), (5, None, Some(2))]
    );
}

#[test]
fn reduced_indices_drop_summed_axes() {
    // shape 2 x 3 x 4, summing the middle axis: reduced shape 2 x 4
    let shape = [2, 3, 4];
    let strides = [12, 4, 1];
    let reduced = [4, 1];
    let summed = [false, true, false];
    // cell (1, 2, 3) = 23 lands on (1, 3) = 7
    assert_eq!(reduced_sparse_flat_index(23, &shape, &strides, &reduced, &summed), 7);
    assert_eq!(reduced_sparse_flat_index(5, &shape, &strides, &reduced, &summed), 1);
    // summing everything leaves one cell
    assert_eq!(reduced_sparse_flat_index(23, &shape, &strides, &[], &[true, true, true]), 0);
}

#[test]
fn lazy_difference_cells_and_sources() {
    // shape 2 x 3, difference along the last axis
    assert_eq!(diff_active_indices(&[2, 3], 1, &[0, 4]), Some(vec![0, 2, 3]));
    let mapping = SparseDiffMapping::new(&[2, 3], 1).unwrap();
    // output cell 3 is (1, 1): earlier neighbour (1, 1) = 4, later neighbour (1, 2) = 5
    assert_eq!(diff_sources(&mapping, 3), Some((4, 5)));
    assert_eq!(diff_sources(&mapping, 0), Some((0, 1)));
    let single = SparseDiffMapping::new(&[2, 1], 1).unwrap();
    assert_eq!(diff_sources(&single, 0), None);
}

#[test]
fn rolled_entries_are_sorted_by_new_index() {
    // 2 x 3 array, roll the columns right by one.
    assert_eq!(rolled_entries(&[2, 3], 1, 1, &[0, 2, 4]), vec![(0, 1), (1, 0), (5, 2)]);
    // Rolling the rows of a 2 x 2 array swaps them.
    assert_eq!(rolled_entries(&[2, 2], 0, 1, &[0, 3]), vec![(1, 1), (2, 0)]);
    assert_eq!(rolled_entries(&[4], 0, -1, &[]), vec![]);
}

#[test]
fn shifts_are_brought_into_the_axis() {
    assert_eq!(normalized_shift(-1, 3), 2);
    assert_eq!(normalized_shift(4, 3), 1);
    assert_eq!(normalized_shift(-3, 3), 0);
    assert_eq!(normalized_shift(-4, 3), 2);
    assert_eq!(normalized_shift(2, 3), 2);
    assert_eq!(normalized_shift(7, 0), 0);
}

#[test]
fn sparse_sources_are_checked_before_merging() {
    assert_eq!(check_sparse_source(&[0, 3, 7], 3), Ok(()));
    assert_eq!(check_sparse_source(&[], 0), Ok(()));
    assert_eq!(check_sparse_source(&[0, 3], 3), Err(SparseSourceError::MismatchedLengths));
    assert_eq!(check_sparse_source(&[0, 3, 3], 3), Err(SparseSourceError::NotStrictlyIncreasing));
    assert_eq!(check_sparse_source(&[4, 1], 2), Err(SparseSourceError::NotStrictlyIncreasing));
}

#[test]
fn rolling_back_returns_every_cell() {
    let shape = [2usize, 3, 2];
    let strides = [6usize, 2, 1];
    for axis in 0..3 {
        for shift in [-2isize, -1, 0, 1, 2] {
            for flat in 0..12 {
                let rolled = sparse_rolled_flat_index(flat, &shape, &strides, axis, shift);
                assert_eq!(sparse_rolled_flat_index(rolled, &shape, &strides, axis, -shift), flat);
            }
        }
    }
}
