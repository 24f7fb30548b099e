//! Compact expression arrays: element `i` of an array of `count` elements
//! is `constant + sum(coefficient_t * x[start_t + i])` over its terms `t`.
//! Here only the variable ids; the coefficients travel beside them.

use vstd::prelude::*;

verus! {

/// Every term's variable for the last element of an array of `count`
/// elements has an id.
pub open spec fn ids_fit(starts: Seq<u32>, count: usize) -> bool {
    forall|t: int| 0 <= t < starts.len() ==> #[trigger] starts[t] + count <= u32::MAX + 1
}

/// The variable ids of element `i`: one per term, in the order of the
/// terms.
pub fn element_ids(starts: &[u32], i: usize) -> (ids: Vec<u32>)
    requires
        forall|t: int| 0 <= t < starts@.len() ==> #[trigger] starts@[t] + i <= u32::MAX,
    ensures
        ids@.len() == starts@.len(),
        forall|t: int| 0 <= t < starts@.len() ==> #[trigger] ids@[t] == starts@[t] + i,
{
    let mut ids: Vec<u32> = Vec::new();
    let mut t: usize = 0;
    while t < starts.len()
        invariant
            t <= starts@.len(),
            forall|u: int| 0 <= u < starts@.len() ==> #[trigger] starts@[u] + i <= u32::MAX,
            ids@.len() == t,
            forall|u: int| 0 <= u < t ==> #[trigger] ids@[u] == starts@[u] + i,
        decreases starts@.len() - t,
    {
        let id = starts[t] + i as u32;
        ids.push(id);
        t = t + 1;
    }
    ids
}

/// The variable ids of all linear terms of the array, term by term and,
/// within a term, element by element: entry `t * count + i` is the
/// variable of term `t` in element `i`.
pub fn linear_term_ids(starts: &[u32], count: usize) -> (ids: Vec<u32>)
    requires
        ids_fit(starts@, count),
        starts@.len() * count <= usize::MAX,
    ensures
        ids@.len() == starts@.len() * count,
        forall|t: int, i: int|
            0 <= t < starts@.len() && 0 <= i < count ==> #[trigger] ids@[t * count + i] == starts@[t]
                + i,
{
    let mut ids: Vec<u32> = Vec::new();
    let mut t: usize = 0;
    while t < starts.len()
        invariant
            t <= starts@.len(),
            ids_fit(starts@, count),
            ids@.len() == t * count,
            forall|u: int, i: int|
                0 <= u < t && 0 <= i < count ==> #[trigger] ids@[u * count + i] == starts@[u] + i,
        decreases starts@.len() - t,
    {
        let start = starts[t];
        let ghost before = ids@;
        let mut i: usize = 0;
        while i < count
            invariant
                i <= count,
                t < starts@.len(),
                start == starts@[t as int],
                start + count <= u32::MAX + 1,
                ids@.len() == t * count + i,
                ids@.take(t * count) == before,
                before.len() == t * count,
                forall|j: int| 0 <= j < i ==> #[trigger] ids@[t * count + j] == start + j,
            decreases count - i,
        {
            ids.push(start + i as u32);
            proof {
                assert(ids@.take(t * count) =~= before);
            }
            i = i + 1;
        }
        proof {
            assert forall|u: int, j: int|
                0 <= u < t + 1 && 0 <= j < count implies #[trigger] ids@[u * count + j] == starts@[u]
                + j by {
                if u < t {
                    assert(u * count + j < t * count) by (nonlinear_arith)
                        requires
                            u < t,
                            0 <= j < count,
                    ;
                    assert(ids@[u * count + j] == ids@.take(t * count)[u * count + j]);
                    assert(before[u * count + j] == starts@[u] + j);
                } else {
                    assert(u == t);
                }
            }
            assert((t + 1) * count == t * count + count) by (nonlinear_arith);
        }
        t = t + 1;
    }
    ids
}

} // verus!
