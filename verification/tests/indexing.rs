use arco::indexing::{
    index_set_repr, index_set_slice, index_set_source, slice_index_set_name, IndexSetError,
    IndexSetSource,
};
use arco::indexing::{
    boolean_mask_indices, resolve_index, row_major_strides, selected_flat_indices, slice_indices,
    complete_selections, sliced_axes,
    AxisIndex, IndexingError,
};

#[test]
fn integer_subscripts_count_from_either_end() {
    assert_eq!(resolve_index(0, 3), Ok(0));
    assert_eq!(resolve_index(2, 3), Ok(2));
    assert_eq!(resolve_index(-1, 3), Ok(2));
    assert_eq!(resolve_index(-3, 3), Ok(0));
    assert_eq!(resolve_index(3, 3), Err(IndexingError::OutOfRange { index: 3, dim_size: 3 }));
    assert_eq!(resolve_index(-4, 3), Err(IndexingError::OutOfRange { index: -4, dim_size: 3 }));
    assert_eq!(resolve_index(0, 0), Err(IndexingError::OutOfRange { index: 0, dim_size: 0 }));
}

#[test]
fn slices_walk_in_the_direction_of_their_step() {
    // slice(1, None, 2) over 6 resolves to start 1, stop 6, step 2
    assert_eq!(slice_indices(1, 6, 2, 6), vec![1, 3, 5]);
    // slice(None, None, -1) over 4 resolves to start 3, stop -1, step -1
    assert_eq!(slice_indices(3, -1, -1, 4), vec![3, 2, 1, 0]);
    assert_eq!(slice_indices(2, 2, 1, 4), Vec::<usize>::new());
    assert_eq!(slice_indices(0, 4, 10, 4), vec![0]);
}

#[test]
fn boolean_masks_pick_true_positions() {
    assert_eq!(boolean_mask_indices(&[true, false, true, true], 4), Ok(vec![0, 2, 3]));
    assert_eq!(boolean_mask_indices(&[false, false], 2), Ok(vec![]));
    assert_eq!(
        boolean_mask_indices(&[true], 2),
        Err(IndexingError::MaskLengthMismatch { mask_len: 1, expected_len: 2 })
    );
}

#[test]
fn strides_are_row_major() {
    assert_eq!(row_major_strides(&[2, 3, 4]), vec![12, 4, 1]);
    assert_eq!(row_major_strides(&[5]), vec![1]);
    assert_eq!(row_major_strides(&[]), Vec::<usize>::new());
    assert_eq!(row_major_strides(&[3, 0, 2]), vec![0, 2, 1]);
}

#[test]
fn selections_pick_flat_offsets_last_axis_fastest() {
    let shape = [2, 3];
    let (flat, out_shape) = selected_flat_indices(
        &shape,
        &[AxisIndex::Range(vec![0, 1]), AxisIndex::Range(vec![2, 0])],
    );
    assert_eq!(flat, vec![2, 0, 5, 3]);
    assert_eq!(out_shape, vec![2, 2]);

    let (flat, out_shape) =
        selected_flat_indices(&shape, &[AxisIndex::Single(1), AxisIndex::Range(vec![0, 1, 2])]);
    assert_eq!(flat, vec![3, 4, 5]);
    assert_eq!(out_shape, vec![3]);

    let (flat, out_shape) =
        selected_flat_indices(&shape, &[AxisIndex::Single(1), AxisIndex::Single(2)]);
    assert_eq!(flat, vec![5]);
    assert!(out_shape.is_empty());
}

#[test]
fn index_set_arguments_and_slices() {
    assert_eq!(index_set_source(Some(3), None), Ok(IndexSetSource::Range(3)));
    assert_eq!(index_set_source(Some(0), None), Err(IndexSetError::ZeroSize));
    assert_eq!(index_set_source(None, Some(2)), Ok(IndexSetSource::Members));
    assert_eq!(index_set_source(None, Some(0)), Err(IndexSetError::NoMembers));
    assert_eq!(index_set_source(Some(1), Some(1)), Err(IndexSetError::SizeAndMembers));
    assert_eq!(index_set_source(None, None), Err(IndexSetError::NeitherSizeNorMembers));
    assert_eq!(index_set_slice(0, 3, 2, 3), Ok(vec![0, 2]));
    assert_eq!(index_set_slice(2, 2, 1, 3), Err(IndexSetError::EmptySlice));
    assert_eq!(index_set_repr("time", 24), "IndexSet(name='time', size=24)");
    assert_eq!(slice_index_set_name(5), "_slice_5");
}

#[test]
fn sliced_axes_keep_whole_labels_only_when_fully_selected() {
    let shape = [3usize, 4, 2];
    let selections = vec![
        AxisIndex::Range(vec![0, 1, 2]),
        AxisIndex::Single(1),
        AxisIndex::Range(vec![1]),
    ];
    assert_eq!(sliced_axes(&shape, &selections), vec![(0, true), (2, false)]);
    let reordered = vec![AxisIndex::Range(vec![2, 1, 0])];
    assert_eq!(sliced_axes(&shape, &reordered), vec![(0, true)]);
    assert_eq!(sliced_axes(&shape, &[]), vec![]);
}

#[test]
fn missing_subscripts_select_whole_axes() {
    let selections = complete_selections(&[2, 3, 2], vec![AxisIndex::Single(1)]).unwrap();
    assert_eq!(selections.len(), 3);
    assert!(matches!(selections[0], AxisIndex::Single(1)));
    assert!(matches!(&selections[1], AxisIndex::Range(v) if v == &vec![0, 1, 2]));
    assert!(matches!(&selections[2], AxisIndex::Range(v) if v == &vec![0, 1]));
    let (flat, kept) = selected_flat_indices(&[2, 3, 2], &selections);
    assert_eq!(flat, vec![6, 7, 8, 9, 10, 11]);
    assert_eq!(kept, vec![3, 2]);
}

#[test]
fn too_many_subscripts_are_refused() {
    let r = complete_selections(&[2], vec![AxisIndex::Single(0), AxisIndex::Single(0)]);
    assert!(matches!(r, Err(IndexingError::TooManySubscripts { given: 2, rank: 1 })));
}
