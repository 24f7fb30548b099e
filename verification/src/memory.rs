//! Memory estimates of expression arrays: how many slots an array has,
//! how many of them hold a value, and the bytes their terms take.

use vstd::prelude::*;

verus! {

/// How many linear, quadratic and cubic terms the expressions of an array
/// hold in all.
#[derive(Debug, Clone, Copy, PartialEq, Eq, Structural)]
pub struct TermCounts {
    pub linear: usize,
    pub quadratic: usize,
    pub cubic: usize,
}

/// The bytes one stored term of each degree takes.
#[derive(Debug, Clone, Copy, PartialEq, Eq, Structural)]
pub struct TermSizes {
    pub linear: usize,
    pub quadratic: usize,
    pub cubic: usize,
}

/// The bytes all terms take.
pub open spec fn term_bytes_spec(counts: TermCounts, sizes: TermSizes) -> int {
    counts.linear * sizes.linear + counts.quadratic * sizes.quadratic + counts.cubic * sizes.cubic
}

/// The bytes all terms of an array take, for a count that fits in `usize`.
pub fn estimated_term_bytes(counts: TermCounts, sizes: TermSizes) -> (bytes: usize)
    requires
        term_bytes_spec(counts, sizes) <= usize::MAX,
    ensures
        bytes == term_bytes_spec(counts, sizes),
{
    proof {
        assert(0 <= counts.linear * sizes.linear) by (nonlinear_arith);
        assert(0 <= counts.quadratic * sizes.quadratic) by (nonlinear_arith);
        assert(0 <= counts.cubic * sizes.cubic) by (nonlinear_arith);
    }
    let linear = counts.linear * sizes.linear;
    let quadratic = counts.quadratic * sizes.quadratic;
    let cubic = counts.cubic * sizes.cubic;
    linear + quadratic + cubic
}

/// The slot figures of a memory estimate.
#[derive(Debug, Clone, Copy, PartialEq, Eq, Structural)]
pub struct SlotEstimate {
    /// Every cell of the array.
    pub dense_slots: usize,
    /// The cells that hold an expression.
    pub active_slots: usize,
    /// The cells that hold none, at least 0.
    pub inactive_slots: usize,
    /// What one linear term per cell would take, at most `usize::MAX`.
    pub dense_linear_term_bytes: usize,
    /// What one linear term per empty cell would take, at most `usize::MAX`.
    pub inactive_linear_term_bytes: usize,
}

/// `a - b`, or 0 where `b` exceeds `a`.
pub open spec fn saturating_sub_spec(a: int, b: int) -> int {
    if a >= b {
        a - b
    } else {
        0
    }
}

/// `a * b`, or `usize::MAX` where that does not fit.
pub open spec fn saturating_mul_spec(a: int, b: int) -> int {
    if a * b <= usize::MAX {
        a * b
    } else {
        usize::MAX as int
    }
}

fn saturating_mul(a: usize, b: usize) -> (p: usize)
    ensures
        p == saturating_mul_spec(a as int, b as int),
{
    match a.checked_mul(b) {
        Some(p) => p,
        None => usize::MAX,
    }
}

/// The slot figures of an array of `dense_slots` cells of which
/// `active_slots` hold an expression, a linear term taking
/// `linear_term_bytes`.
pub fn slot_estimate(dense_slots: usize, active_slots: usize, linear_term_bytes: usize) -> (e:
    SlotEstimate)
    ensures
        e.dense_slots == dense_slots,
        e.active_slots == active_slots,
        e.inactive_slots == saturating_sub_spec(dense_slots as int, active_slots as int),
        e.dense_linear_term_bytes == saturating_mul_spec(dense_slots as int, linear_term_bytes as int),
        e.inactive_linear_term_bytes == saturating_mul_spec(
            saturating_sub_spec(dense_slots as int, active_slots as int),
            linear_term_bytes as int,
        ),
{
    let inactive_slots = dense_slots.saturating_sub(active_slots);
    let dense_linear_term_bytes = saturating_mul(dense_slots, linear_term_bytes);
    let inactive_linear_term_bytes = saturating_mul(inactive_slots, linear_term_bytes);
    SlotEstimate {
        dense_slots,
        active_slots,
        inactive_slots,
        dense_linear_term_bytes,
        inactive_linear_term_bytes,
    }
}

/// The empty cells are the cells less the active ones, never fewer than
/// none; a byte figure is the product it estimates, held at `usize::MAX`
/// when that does not fit.
pub proof fn lemma_slot_figures(dense: usize, active: usize, bytes: usize)
    ensures
        saturating_sub_spec(dense as int, active as int) >= 0,
        saturating_sub_spec(dense as int, active as int) + active >= dense,
        active <= dense ==> saturating_sub_spec(dense as int, active as int) + active == dense,
        saturating_mul_spec(dense as int, bytes as int) <= usize::MAX,
        dense * bytes <= usize::MAX ==> saturating_mul_spec(dense as int, bytes as int) == dense
            * bytes,
        dense * bytes > usize::MAX ==> saturating_mul_spec(dense as int, bytes as int)
            == usize::MAX,
{
}

} // verus!
