use arco::array_ops::{
    axis_split, cumsum_order, diagonal_flat_indices, diff_plan, distinct_axes, join_plan,
    roll_plan, sum_plan, summation_order, ArrayOpError,
};

#[test]
fn diagonals_of_a_matrix() {
    // 3 x 4 matrix
    assert_eq!(diagonal_flat_indices(3, 4, 0), Ok(vec![0, 5, 10]));
    assert_eq!(diagonal_flat_indices(3, 4, 1), Ok(vec![1, 6, 11]));
    assert_eq!(diagonal_flat_indices(3, 4, 3), Ok(vec![3]));
    assert_eq!(diagonal_flat_indices(3, 4, -1), Ok(vec![4, 9]));
    assert_eq!(diagonal_flat_indices(3, 4, 4), Err(ArrayOpError::DiagonalOutOfRange));
    assert_eq!(diagonal_flat_indices(3, 4, -3), Err(ArrayOpError::DiagonalOutOfRange));
}

#[test]
fn joining_along_the_first_axis() {
    let plan = join_plan(&[vec![1, 2], vec![2, 2]], 0, 0).unwrap();
    assert_eq!(plan.shape, vec![3, 2]);
    assert_eq!(plan.sources, vec![(0, 0), (0, 1), (1, 0), (1, 1), (1, 2), (1, 3)]);
}

#[test]
fn joining_along_the_last_axis() {
    let plan = join_plan(&[vec![2, 1], vec![2, 2]], 0, 1).unwrap();
    assert_eq!(plan.shape, vec![2, 3]);
    assert_eq!(plan.sources, vec![(0, 0), (1, 0), (1, 1), (0, 1), (1, 2), (1, 3)]);
}

#[test]
fn joined_shapes_must_agree() {
    assert_eq!(join_plan(&[vec![2, 1], vec![3, 2]], 0, 1).err(), Some(ArrayOpError::ShapeMismatch));
    assert_eq!(join_plan(&[vec![2, 1], vec![2]], 0, 1).err(), Some(ArrayOpError::RankMismatch));
}

#[test]
fn dense_plans_along_an_axis() {
    // shape 2 x 3 x 2 along the middle axis
    assert_eq!(axis_split(&[2, 3, 2], 1), (2, 3, 2));
    assert_eq!(axis_split(&[4], 0), (1, 4, 1));

    let sum = sum_plan(2, 3, 2);
    assert_eq!(sum.len(), 12);
    assert_eq!(sum[0], (0, 0));
    assert_eq!(sum[3], (3, 1));
    assert_eq!(sum[4], (4, 0));
    assert_eq!(sum[7], (7, 3));

    let order = cumsum_order(2, 3, 2);
    assert_eq!(order, vec![0, 2, 4, 1, 3, 5, 6, 8, 10, 7, 9, 11]);

    let diff = diff_plan(2, 3, 2);
    assert_eq!(diff, vec![(2, 0), (3, 1), (4, 2), (5, 3), (8, 6), (9, 7), (10, 8), (11, 9)]);
    assert!(diff_plan(2, 1, 2).is_empty());

    let roll = roll_plan(1, 3, 1, 1);
    assert_eq!(roll, vec![1, 2, 0]);
    let roll_back = roll_plan(1, 3, 2, -1);
    assert_eq!(roll_back, vec![4, 5, 0, 1, 2, 3]);
    assert!(roll_plan(0, 3, 1, 5).is_empty());
}

#[test]
fn reduction_axes_must_be_distinct() {
    assert_eq!(distinct_axes(vec![2, 0, 1]), Ok(vec![2, 0, 1]));
    assert_eq!(distinct_axes(vec![]), Ok(vec![]));
    assert_eq!(distinct_axes(vec![1, 0, 1]), Err(ArrayOpError::RepeatedAxis));
}

#[test]
fn axes_are_summed_from_the_last() {
    assert_eq!(summation_order(&[0, 2, 1]), vec![2, 1, 0]);
    assert_eq!(summation_order(&[1]), vec![1]);
    assert_eq!(summation_order(&[]), Vec::<usize>::new());
    assert_eq!(summation_order(&[3, 0, 3]), vec![3, 3, 0]);
}
