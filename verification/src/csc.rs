//! Checks on the index arrays of a matrix given in compressed sparse
//! column form.

use vstd::prelude::*;

verus! {

/// Why an index array was refused.
#[derive(Debug, Clone, Copy, PartialEq, Eq, Structural)]
pub enum CscIndexError {
    /// An entry outside the range of `i32`.
    OutOfInt32Range,
    /// A negative entry.
    NegativeIndex,
}

/// Narrows 64-bit integers to `i32`, refusing the first that does not fit.
pub fn narrow_to_i32(values: &[i64]) -> (narrowed: Result<Vec<i32>, CscIndexError>)
    ensures
        match narrowed {
            Ok(v) => v@.len() == values@.len() && forall|i: int|
                0 <= i < values@.len() ==> #[trigger] v@[i] as int == values@[i] as int,
            Err(e) => e == CscIndexError::OutOfInt32Range && exists|i: int|
                0 <= i < values@.len() && !(i32::MIN <= #[trigger] values@[i] <= i32::MAX),
        },
{
    let mut out: Vec<i32> = Vec::with_capacity(values.len());
    let mut i: usize = 0;
    while i < values.len()
        invariant
            i <= values@.len(),
            out@.len() == i,
            forall|j: int| 0 <= j < i ==> #[trigger] out@[j] as int == values@[j] as int,
        decreases values@.len() - i,
    {
        let value = values[i];
        if value < i32::MIN as i64 || value > i32::MAX as i64 {
            proof {
                assert(!(i32::MIN <= values@[i as int] <= i32::MAX));
            }
            return Err(CscIndexError::OutOfInt32Range);
        }
        out.push(value as i32);
        i = i + 1;
    }
    Ok(out)
}

/// The indices of an `i32` index array, refusing it when an entry is
/// negative.
pub fn indices_from_i32(values: &[i32]) -> (indices: Result<Vec<usize>, CscIndexError>)
    ensures
        match indices {
            Ok(v) => v@.len() == values@.len() && forall|i: int|
                0 <= i < values@.len() ==> #[trigger] v@[i] as int == values@[i] as int,
            Err(e) => e == CscIndexError::NegativeIndex && exists|i: int|
                0 <= i < values@.len() && #[trigger] values@[i] < 0,
        },
{
    let mut out: Vec<usize> = Vec::with_capacity(values.len());
    let mut i: usize = 0;
    while i < values.len()
        invariant
            i <= values@.len(),
            out@.len() == i,
            forall|j: int| 0 <= j < i ==> #[trigger] out@[j] as int == values@[j] as int,
        decreases values@.len() - i,
    {
        let value = values[i];
        if value < 0 {
            proof {
                assert(values@[i as int] < 0);
            }
            return Err(CscIndexError::NegativeIndex);
        }
        out.push(value as usize);
        i = i + 1;
    }
    Ok(out)
}

} // verus!
