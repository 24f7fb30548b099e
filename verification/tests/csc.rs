use arco::csc::{indices_from_i32, narrow_to_i32, CscIndexError};

#[test]
fn index_arrays_are_checked() {
    assert_eq!(narrow_to_i32(&[0, 5, -3]), Ok(vec![0, 5, -3]));
    assert_eq!(narrow_to_i32(&[1, i64::from(i32::MAX) + 1]), Err(CscIndexError::OutOfInt32Range));
    assert_eq!(indices_from_i32(&[0, 7, 2]), Ok(vec![0, 7, 2]));
    assert_eq!(indices_from_i32(&[0, -1]), Err(CscIndexError::NegativeIndex));
}
