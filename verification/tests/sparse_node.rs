use arco::sparse_node::{SparseIndexNode, MAX_SPARSE_EXPR_DEPTH};

#[test]
fn leaves_check_their_entries() {
    assert!(SparseIndexNode::values(vec![4], vec![0, 2], 2).is_some());
    assert!(SparseIndexNode::values(vec![4], vec![0, 2], 3).is_none());
    assert!(SparseIndexNode::values(vec![4], vec![2, 2], 2).is_none());
    let leaf = SparseIndexNode::variable(vec![4], vec![1, 3]);
    assert_eq!(leaf.depth(), 1);
    assert_eq!(leaf.active_indices(), &[1, 3]);
}

#[test]
fn sums_merge_cells_and_deepen() {
    let left = SparseIndexNode::variable(vec![6], vec![0, 2, 4]);
    let right = SparseIndexNode::variable(vec![6], vec![2, 5]);
    let sum = left.add(&right).unwrap();
    assert_eq!(sum.active_indices(), &[0, 2, 4, 5]);
    assert_eq!(sum.depth(), 2);
    let scaled = sum.scale().unwrap();
    assert_eq!(scaled.active_indices(), &[0, 2, 4, 5]);
    assert_eq!(scaled.depth(), 3);
}

#[test]
fn depth_is_capped() {
    let mut node = SparseIndexNode::variable(vec![3], vec![1]);
    for _ in 1..MAX_SPARSE_EXPR_DEPTH {
        node = node.scale().unwrap();
    }
    assert_eq!(node.depth(), MAX_SPARSE_EXPR_DEPTH);
    assert!(node.scale().is_none());
    assert!(node.diff(0).is_none());
    assert!(node.roll(0, 1).is_none());
    let other = SparseIndexNode::variable(vec![3], vec![0]);
    assert!(other.add(&node).is_none());
}

#[test]
fn differences_shrink_the_axis() {
    // 2 x 3 array with entries at (0, 1) and (1, 2).
    let node = SparseIndexNode::variable(vec![2, 3], vec![1, 5]);
    let diff = node.diff(1).unwrap();
    assert_eq!(diff.shape(), &[2, 2]);
    // (0,1) feeds output cells (0,0) and (0,1); (1,2) feeds (1,1).
    assert_eq!(diff.active_indices(), &[0, 1, 3]);
    assert_eq!(diff.depth(), 2);
    let empty_axis = SparseIndexNode::variable(vec![0, 3], vec![]);
    let d = empty_axis.diff(0).unwrap();
    assert_eq!(d.shape(), &[0, 3]);
    assert!(d.active_indices().is_empty());
}

#[test]
fn rolls_move_cells_and_keep_them_sorted() {
    let node = SparseIndexNode::variable(vec![2, 3], vec![0, 2, 4]);
    let rolled = node.roll(1, -2).unwrap();
    assert_eq!(rolled.shape(), &[2, 3]);
    assert_eq!(rolled.active_indices(), &[0, 1, 5]);
    assert_eq!(rolled.depth(), 2);
}
