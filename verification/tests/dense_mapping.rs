use arco::dense_mapping::{DenseIndexMapping, DenseIndexRun, DenseLayout};
use std::mem::size_of;

#[test]
fn dense_mapping_identity_has_no_payload_and_handles_empty_input() {
    let mapping = DenseIndexMapping::from_indices(&[]);
    assert!(matches!(mapping.layout(), DenseLayout::Identity));
    assert_eq!(mapping.payload_bytes(), 0);
    assert_eq!(mapping.dense_offset(0, 0), None);
    assert_eq!(mapping.active_offset(0, 0), None);

    let mapping = DenseIndexMapping::from_indices(&[0, 1, 2, 3]);
    assert!(matches!(mapping.layout(), DenseLayout::Identity));
    assert_eq!(mapping.payload_bytes(), 0);
    assert_eq!(mapping.dense_offset(3, 4), Some(3));
    assert_eq!(mapping.active_offset(3, 4), Some(3));
    assert_eq!(mapping.dense_offset(4, 4), None);
    assert_eq!(mapping.active_offset(4, 4), None);
}

#[test]
fn dense_mapping_uses_runs_for_sparse_sorted_indices() {
    let indices = [5, 6, 7, 10, 11, 12, 20, 21];
    let mapping = DenseIndexMapping::from_indices(&indices);
    assert!(matches!(mapping.layout(), DenseLayout::Runs(_)));
    assert!(mapping.payload_bytes() < indices.len() * size_of::<usize>());

    let expected_dense = [5, 6, 7, 10, 11, 12, 20, 21];
    for (active_offset, expected) in expected_dense.into_iter().enumerate() {
        assert_eq!(mapping.dense_offset(active_offset, indices.len()), Some(expected));
        assert_eq!(mapping.active_offset(expected, indices.len()), Some(active_offset));
    }
    for dense_offset in [0, 4, 8, 9, 13, 19, 22] {
        assert_eq!(mapping.active_offset(dense_offset, indices.len()), None);
    }
}

#[test]
fn dense_mapping_keeps_explicit_fallback_semantics() {
    let indices = [5, 3, 4, 3];
    let mapping = DenseIndexMapping::from_indices(&indices);
    assert!(matches!(mapping.layout(), DenseLayout::Explicit(_)));
    for (active_offset, expected) in indices.into_iter().enumerate() {
        assert_eq!(mapping.dense_offset(active_offset, indices.len()), Some(expected));
    }
    assert_eq!(mapping.active_offset(3, indices.len()), Some(1));
    assert_eq!(mapping.active_offset(6, indices.len()), None);

    let short_sorted = DenseIndexMapping::from_indices(&[5, 6]);
    assert!(matches!(short_sorted.layout(), DenseLayout::Explicit(_)));

    let irregular_sorted = DenseIndexMapping::from_indices(&[1, 3, 5, 7]);
    assert!(matches!(irregular_sorted.layout(), DenseLayout::Explicit(_)));
    for (active_offset, expected) in [1, 3, 5, 7].into_iter().enumerate() {
        assert_eq!(
            irregular_sorted.dense_offset(active_offset, 4),
            Some(expected)
        );
    }
}

#[test]
fn dense_mapping_handles_usize_maximum_run_boundaries() {
    let first_dense = usize::MAX - 2;
    let indices = [first_dense, usize::MAX - 1, usize::MAX];
    let mapping = DenseIndexMapping::from_indices(&indices);
    assert!(matches!(mapping.layout(), DenseLayout::Runs(_)));

    assert_eq!(mapping.dense_offset(0, indices.len()), Some(first_dense));
    assert_eq!(mapping.dense_offset(2, indices.len()), Some(usize::MAX));
    assert_eq!(mapping.dense_offset(3, indices.len()), None);
    assert_eq!(mapping.dense_offset(usize::MAX, indices.len()), None);
    assert_eq!(mapping.active_offset(first_dense, indices.len()), Some(0));
    assert_eq!(mapping.active_offset(usize::MAX, indices.len()), Some(2));
    assert_eq!(mapping.active_offset(usize::MAX - 3, indices.len()), None);
}

#[test]
fn dense_mapping_header_fits_three_portable_words() {
    assert!(size_of::<DenseIndexRun>() == 2 * size_of::<usize>());
    assert!(size_of::<DenseIndexMapping>() <= 3 * size_of::<usize>());
}

#[test]
fn dense_mapping_runs_are_recorded_at_run_starts() {
    let mapping = DenseIndexMapping::from_indices(&[5, 6, 7, 10, 11, 12, 20, 21]);
    match mapping.layout() {
        DenseLayout::Runs(runs) => {
            let starts: Vec<(usize, usize)> =
                runs.iter().map(|run| (run.active_start, run.dense_start)).collect();
            assert_eq!(starts, vec![(0, 5), (3, 10), (6, 20)]);
        }
        _ => panic!("sorted sparse indices should use runs"),
    }
}

#[test]
fn dense_mapping_roundtrips_every_active_offset() {
    for indices in [vec![2usize, 9, 4], vec![0, 2, 3, 4, 5, 6, 7, 8], vec![7, 7, 1]] {
        let mapping = DenseIndexMapping::from_indices(&indices);
        for (active, dense) in indices.iter().enumerate() {
            assert_eq!(mapping.dense_offset(active, indices.len()), Some(*dense));
            let back = mapping.active_offset(*dense, indices.len()).unwrap();
            assert_eq!(indices[back], *dense);
            assert!(back <= active);
        }
    }
}
