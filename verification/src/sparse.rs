//! Index bookkeeping for sparse arrays: the sorted flat indices of their
//! active entries, merged, differenced along an axis, rolled and reduced.

use vstd::prelude::*;

verus! {

pub open spec fn strictly_sorted(s: Seq<usize>) -> bool {
    forall|i: int, j: int| 0 <= i < j < s.len() ==> s[i] < s[j]
}

/// Why the entries of a sparse operand were refused.
#[derive(Debug, Clone, Copy, PartialEq, Eq, Structural)]
pub enum SparseSourceError {
    /// There are not as many values as active indices.
    MismatchedLengths,
    /// The active indices are not strictly increasing.
    NotStrictlyIncreasing,
}

/// Checks the entries of a sparse operand before they are merged: as many
/// values as indices, and indices strictly increasing.
pub fn check_sparse_source(indices: &[usize], value_count: usize) -> (r: Result<(), SparseSourceError>)
    ensures
        indices@.len() != value_count ==> r == Err::<(), SparseSourceError>(
            SparseSourceError::MismatchedLengths,
        ),
        indices@.len() == value_count && !strictly_sorted(indices@) ==> r == Err::<
            (),
            SparseSourceError,
        >(SparseSourceError::NotStrictlyIncreasing),
        indices@.len() == value_count && strictly_sorted(indices@) ==> r is Ok,
{
    if indices.len() != value_count {
        return Err(SparseSourceError::MismatchedLengths);
    }
    let mut k: usize = 1;
    while k < indices.len()
        invariant
            1 <= k,
            indices@.len() == value_count,
            forall|a: int| 0 < a < k && a < indices@.len() ==> indices@[a - 1] < #[trigger] indices@[a],
        decreases indices@.len() - k,
    {
        if indices[k - 1] >= indices[k] {
            return Err(SparseSourceError::NotStrictlyIncreasing);
        }
        k = k + 1;
    }
    proof {
        lemma_adjacent_sorted(indices@);
    }
    Ok(())
}

/// A sequence increasing between neighbours increases throughout.
proof fn lemma_adjacent_sorted(s: Seq<usize>)
    requires
        forall|a: int| 0 < a < s.len() ==> s[a - 1] < #[trigger] s[a],
    ensures
        strictly_sorted(s),
{
    assert forall|i: int, j: int| 0 <= i < j < s.len() implies s[i] < s[j] by {
        lemma_adjacent_sorted_from(s, i, j);
    }
}

proof fn lemma_adjacent_sorted_from(s: Seq<usize>, i: int, j: int)
    requires
        forall|a: int| 0 < a < s.len() ==> s[a - 1] < #[trigger] s[a],
        0 <= i < j < s.len(),
    ensures
        s[i] < s[j],
    decreases j - i,
{
    if j > i + 1 {
        lemma_adjacent_sorted_from(s, i, j - 1);
    }
}

// ----- merging sorted index lists -----

/// The merge of `l[i..]` and `r[j..]`: repeatedly emit the smaller head,
/// emitting a head shared by both lists once.
pub open spec fn merge_from(l: Seq<usize>, r: Seq<usize>, i: nat, j: nat) -> Seq<usize>
    decreases (l.len() - i) + (r.len() - j),
{
    if i >= l.len() {
        if j >= r.len() {
            Seq::empty()
        } else {
            r.subrange(j as int, r.len() as int)
        }
    } else if j >= r.len() {
        l.subrange(i as int, l.len() as int)
    } else if l[i as int] <= r[j as int] {
        let next_j = if l[i as int] == r[j as int] {
            j + 1
        } else {
            j
        };
        seq![l[i as int]] + merge_from(l, r, i + 1, next_j)
    } else {
        seq![r[j as int]] + merge_from(l, r, i, j + 1)
    }
}

pub open spec fn merge_spec(l: Seq<usize>, r: Seq<usize>) -> Seq<usize> {
    merge_from(l, r, 0, 0)
}

/// Merges two lists of indices, emitting an index present in both once.
pub fn merge_sorted_indices(left: &[usize], right: &[usize]) -> (merged: Vec<usize>)
    ensures
        merged@ == merge_spec(left@, right@),
{
    let mut merged: Vec<usize> = Vec::new();
    let mut left_pos: usize = 0;
    let mut right_pos: usize = 0;
    while left_pos < left.len() || right_pos < right.len()
        invariant
            left_pos <= left@.len(),
            right_pos <= right@.len(),
            merged@ + merge_from(left@, right@, left_pos as nat, right_pos as nat) == merge_spec(
                left@,
                right@,
            ),
        decreases (left@.len() - left_pos) + (right@.len() - right_pos),
    {
        if left_pos < left.len() && right_pos < right.len() {
            let left_index = left[left_pos];
            let right_index = right[right_pos];
            if left_index <= right_index {
                merged.push(left_index);
                left_pos = left_pos + 1;
                if left_index == right_index {
                    right_pos = right_pos + 1;
                }
            } else {
                merged.push(right_index);
                right_pos = right_pos + 1;
            }
        } else if left_pos < left.len() {
            proof {
                assert(left@.subrange(left_pos as int, left@.len() as int) =~= seq![
                    left@[left_pos as int],
                ] + left@.subrange(left_pos + 1, left@.len() as int));
            }
            merged.push(left[left_pos]);
            left_pos = left_pos + 1;
        } else {
            proof {
                assert(right@.subrange(right_pos as int, right@.len() as int) =~= seq![
                    right@[right_pos as int],
                ] + right@.subrange(right_pos + 1, right@.len() as int));
            }
            merged.push(right[right_pos]);
            right_pos = right_pos + 1;
        }
    }
    proof {
        assert(merge_from(left@, right@, left_pos as nat, right_pos as nat) =~= Seq::empty());
    }
    merged
}

/// The cells of the sum of two sparse arrays from `l[i..]` and `r[j..]`:
/// repeatedly the smaller head index, with the position in each list that
/// holds it.
pub open spec fn pair_from(l: Seq<usize>, r: Seq<usize>, i: nat, j: nat) -> Seq<
    (usize, Option<usize>, Option<usize>),
>
    decreases (if i < l.len() {
        l.len() - i
    } else {
        0
    }) + (if j < r.len() {
        r.len() - j
    } else {
        0
    }),
{
    if i >= l.len() && j >= r.len() {
        Seq::empty()
    } else {
        let at = if i >= l.len() {
            r[j as int]
        } else if j >= r.len() {
            l[i as int]
        } else if l[i as int] <= r[j as int] {
            l[i as int]
        } else {
            r[j as int]
        };
        let takes_l = i < l.len() && l[i as int] == at;
        let takes_r = j < r.len() && r[j as int] == at;
        seq![
            (
                at,
                if takes_l {
                    Some(i as usize)
                } else {
                    None
                },
                if takes_r {
                    Some(j as usize)
                } else {
                    None
                },
            ),
        ] + pair_from(
            l,
            r,
            if takes_l {
                i + 1
            } else {
                i
            },
            if takes_r {
                j + 1
            } else {
                j
            },
        )
    }
}

/// Pairs up the entries of two sparse arrays of one shape by index: each
/// index of either list once, in order, with its position in the left and
/// in the right list where it occurs there.
pub fn pair_sorted_indices(left: &[usize], right: &[usize]) -> (pairs: Vec<
    (usize, Option<usize>, Option<usize>),
>)
    ensures
        pairs@ == pair_from(left@, right@, 0, 0),
{
    let mut pairs: Vec<(usize, Option<usize>, Option<usize>)> = Vec::new();
    let mut left_pos: usize = 0;
    let mut right_pos: usize = 0;
    while left_pos < left.len() || right_pos < right.len()
        invariant
            left_pos <= left@.len(),
            right_pos <= right@.len(),
            pairs@ + pair_from(left@, right@, left_pos as nat, right_pos as nat) == pair_from(
                left@,
                right@,
                0,
                0,
            ),
        decreases (left@.len() - left_pos) + (right@.len() - right_pos),
    {
        let ghost before = pairs@;
        let ghost li = left_pos;
        let ghost ri = right_pos;
        let current_idx = if left_pos < left.len() && right_pos < right.len() {
            if left[left_pos] <= right[right_pos] {
                left[left_pos]
            } else {
                right[right_pos]
            }
        } else if left_pos < left.len() {
            left[left_pos]
        } else {
            right[right_pos]
        };
        let takes_left = left_pos < left.len() && left[left_pos] == current_idx;
        let takes_right = right_pos < right.len() && right[right_pos] == current_idx;
        pairs.push(
            (
                current_idx,
                if takes_left {
                    Some(left_pos)
                } else {
                    None
                },
                if takes_right {
                    Some(right_pos)
                } else {
                    None
                },
            ),
        );
        if takes_left {
            left_pos = left_pos + 1;
        }
        if takes_right {
            right_pos = right_pos + 1;
        }
        proof {
            assert(pair_from(left@, right@, li as nat, ri as nat) == seq![pairs@.last()] + pair_from(
                left@,
                right@,
                left_pos as nat,
                right_pos as nat,
            ));
            assert(pairs@ + pair_from(left@, right@, left_pos as nat, right_pos as nat) =~= before
                + pair_from(left@, right@, li as nat, ri as nat));
        }
    }
    proof {
        assert(pairs@ + Seq::<(usize, Option<usize>, Option<usize>)>::empty() =~= pairs@);
    }
    pairs
}

/// The cells that pairing two lists gives are those that merging them
/// gives.
pub proof fn lemma_pairs_are_merge(l: Seq<usize>, r: Seq<usize>, i: nat, j: nat)
    ensures
        pair_from(l, r, i, j).map_values(|p: (usize, Option<usize>, Option<usize>)| p.0)
            == merge_from(l, r, i, j),
    decreases (if i < l.len() {
        l.len() - i
    } else {
        0
    }) + (if j < r.len() {
        r.len() - j
    } else {
        0
    }),
{
    let ps = pair_from(l, r, i, j);
    let cells = ps.map_values(|p: (usize, Option<usize>, Option<usize>)| p.0);
    if i >= l.len() && j >= r.len() {
        assert(cells =~= merge_from(l, r, i, j));
    } else if i >= l.len() {
        lemma_pairs_are_merge(l, r, i, j + 1);
        assert(merge_from(l, r, i, j) =~= seq![r[j as int]] + merge_from(l, r, i, j + 1)) by {
            if j + 1 >= r.len() {
                assert(merge_from(l, r, i, j + 1) =~= Seq::<usize>::empty());
            }
        }
        assert(cells =~= merge_from(l, r, i, j));
    } else if j >= r.len() {
        lemma_pairs_are_merge(l, r, i + 1, j);
        assert(merge_from(l, r, i, j) =~= seq![l[i as int]] + merge_from(l, r, i + 1, j)) by {
            if i + 1 >= l.len() {
                assert(merge_from(l, r, i + 1, j) =~= l.subrange(i + 1int, l.len() as int));
            }
        }
        assert(cells =~= merge_from(l, r, i, j));
    } else if l[i as int] <= r[j as int] {
        let nj: nat = if l[i as int] == r[j as int] {
            j + 1
        } else {
            j
        };
        lemma_pairs_are_merge(l, r, i + 1, nj);
        assert(cells =~= merge_from(l, r, i, j));
    } else {
        lemma_pairs_are_merge(l, r, i, j + 1);
        assert(cells =~= merge_from(l, r, i, j));
    }
}

/// Merging two sorted lists without repeats gives a sorted list without
/// repeats holding exactly the indices of either list.
pub proof fn lemma_merge_is_sorted_union(l: Seq<usize>, r: Seq<usize>)
    requires
        strictly_sorted(l),
        strictly_sorted(r),
    ensures
        strictly_sorted(merge_spec(l, r)),
        forall|x: usize| merge_spec(l, r).contains(x) <==> (l.contains(x) || r.contains(x)),
{
    lemma_merge_from(l, r, 0, 0);
}

proof fn lemma_merge_from(l: Seq<usize>, r: Seq<usize>, i: nat, j: nat)
    requires
        strictly_sorted(l),
        strictly_sorted(r),
        i <= l.len(),
        j <= r.len(),
    ensures
        strictly_sorted(merge_from(l, r, i, j)),
        forall|x: usize|
            merge_from(l, r, i, j).contains(x) <==> (exists|k: int| i <= k < l.len() && l[k] == x)
                || (exists|k: int| j <= k < r.len() && r[k] == x),
    decreases (l.len() - i) + (r.len() - j),
{
    let m = merge_from(l, r, i, j);
    if i >= l.len() {
        if j < r.len() {
            let sub = r.subrange(j as int, r.len() as int);
            assert forall|x: usize| m.contains(x) <==> (exists|k: int| j <= k < r.len() && r[k]
                == x) by {
                if m.contains(x) {
                    let t = choose|t: int| 0 <= t < m.len() && m[t] == x;
                    assert(r[j + t] == x);
                }
                if exists|k: int| j <= k < r.len() && r[k] == x {
                    let k = choose|k: int| j <= k < r.len() && r[k] == x;
                    assert(m[k - j] == x);
                }
            }
        }
    } else if j >= r.len() {
        assert forall|x: usize| m.contains(x) <==> (exists|k: int| i <= k < l.len() && l[k] == x) by {
            if m.contains(x) {
                let t = choose|t: int| 0 <= t < m.len() && m[t] == x;
                assert(l[i + t] == x);
            }
            if exists|k: int| i <= k < l.len() && l[k] == x {
                let k = choose|k: int| i <= k < l.len() && l[k] == x;
                assert(m[k - i] == x);
            }
        }
    } else if l[i as int] <= r[j as int] {
        let next_j: nat = if l[i as int] == r[j as int] {
            j + 1
        } else {
            j
        };
        lemma_merge_from(l, r, i + 1, next_j);
        let rest = merge_from(l, r, i + 1, next_j);
        assert(m == seq![l[i as int]] + rest);
        assert forall|k: int| 0 <= k < rest.len() implies l[i as int] < rest[k] by {
            assert(rest.contains(rest[k]));
            if exists|t: int| i + 1 <= t < l.len() && l[t] == rest[k] {
                let t = choose|t: int| i + 1 <= t < l.len() && l[t] == rest[k];
                assert(l[i as int] < l[t]);
            } else {
                let t = choose|t: int| next_j <= t < r.len() && r[t] == rest[k];
                assert(r[j as int] <= r[t]);
                if next_j != j {
                    assert(r[j as int] < r[t]);
                }
            }
        }
        assert forall|x: usize| m.contains(x) <==> (exists|k: int| i <= k < l.len() && l[k] == x)
            || (exists|k: int| j <= k < r.len() && r[k] == x) by {
            if m.contains(x) {
                let t = choose|t: int| 0 <= t < m.len() && m[t] == x;
                if t == 0 {
                    assert(l[i as int] == x);
                } else {
                    assert(rest[t - 1] == x);
                    assert(rest.contains(x));
                }
            }
            if exists|k: int| i <= k < l.len() && l[k] == x {
                let k = choose|k: int| i <= k < l.len() && l[k] == x;
                if k == i {
                    assert(m[0] == x);
                } else {
                    assert(rest.contains(x));
                    let t = choose|t: int| 0 <= t < rest.len() && rest[t] == x;
                    assert(m[t + 1] == x);
                }
            }
            if exists|k: int| j <= k < r.len() && r[k] == x {
                let k = choose|k: int| j <= k < r.len() && r[k] == x;
                if k == j && next_j != j {
                    assert(m[0] == x);
                } else {
                    assert(rest.contains(x));
                    let t = choose|t: int| 0 <= t < rest.len() && rest[t] == x;
                    assert(m[t + 1] == x);
                }
            }
        }
    } else {
        lemma_merge_from(l, r, i, j + 1);
        let rest = merge_from(l, r, i, j + 1);
        assert(m == seq![r[j as int]] + rest);
        assert forall|k: int| 0 <= k < rest.len() implies r[j as int] < rest[k] by {
            assert(rest.contains(rest[k]));
            if exists|t: int| i <= t < l.len() && l[t] == rest[k] {
                let t = choose|t: int| i <= t < l.len() && l[t] == rest[k];
                assert(l[i as int] <= l[t]);
            } else {
                let t = choose|t: int| j + 1 <= t < r.len() && r[t] == rest[k];
                assert(r[j as int] < r[t]);
            }
        }
        assert forall|x: usize| m.contains(x) <==> (exists|k: int| i <= k < l.len() && l[k] == x)
            || (exists|k: int| j <= k < r.len() && r[k] == x) by {
            if m.contains(x) {
                let t = choose|t: int| 0 <= t < m.len() && m[t] == x;
                if t == 0 {
                    assert(r[j as int] == x);
                } else {
                    assert(rest[t - 1] == x);
                    assert(rest.contains(x));
                }
            }
            if exists|k: int| i <= k < l.len() && l[k] == x {
                assert(rest.contains(x));
                let t = choose|t: int| 0 <= t < rest.len() && rest[t] == x;
                assert(m[t + 1] == x);
            }
            if exists|k: int| j <= k < r.len() && r[k] == x {
                let k = choose|k: int| j <= k < r.len() && r[k] == x;
                if k == j {
                    assert(m[0] == x);
                } else {
                    assert(rest.contains(x));
                    let t = choose|t: int| 0 <= t < rest.len() && rest[t] == x;
                    assert(m[t + 1] == x);
                }
            }
        }
    }
}


// ----- checked products of dimensions -----

/// The product of `dims`, taken from the left, or `None` when a partial
/// product leaves `usize`.
pub open spec fn checked_product_of(dims: Seq<usize>) -> Option<nat>
    decreases dims.len(),
{
    if dims.len() == 0 {
        Some(1)
    } else {
        match checked_product_of(dims.drop_last()) {
            Some(p) => if p * dims.last() <= usize::MAX {
                Some((p * dims.last()) as nat)
            } else {
                None
            },
            None => None,
        }
    }
}

proof fn lemma_checked_product_none_extends(dims: Seq<usize>, k: int)
    requires
        0 <= k <= dims.len(),
        checked_product_of(dims.take(k)) is None,
    ensures
        checked_product_of(dims) is None,
    decreases dims.len() - k,
{
    if k < dims.len() {
        assert(dims.take(k + 1).drop_last() =~= dims.take(k));
        lemma_checked_product_none_extends(dims, k + 1);
    } else {
        assert(dims.take(k) =~= dims);
    }
}

/// The product of `dims[start..]`, failing where a partial product
/// overflows.
pub fn checked_product_from(dims: &[usize], start: usize) -> (product: Option<usize>)
    requires
        start <= dims.len(),
    ensures
        match product {
            Some(p) => checked_product_of(dims@.subrange(start as int, dims@.len() as int)) == Some(
                p as nat,
            ),
            None => checked_product_of(dims@.subrange(start as int, dims@.len() as int)) is None,
        },
{
    let ghost suffix = dims@.subrange(start as int, dims@.len() as int);
    let mut total: usize = 1;
    let mut i: usize = start;
    while i < dims.len()
        invariant
            start <= i <= dims.len(),
            suffix == dims@.subrange(start as int, dims@.len() as int),
            checked_product_of(suffix.take(i - start)) == Some(total as nat),
        decreases dims.len() - i,
    {
        proof {
            assert(suffix.take(i - start + 1).drop_last() =~= suffix.take(i - start));
            assert(suffix.take(i - start + 1).last() == dims@[i as int]);
        }
        match total.checked_mul(dims[i]) {
            Some(t) => {
                total = t;
            },
            None => {
                proof {
                    lemma_checked_product_none_extends(suffix, i - start + 1);
                }
                return None;
            },
        }
        i = i + 1;
    }
    proof {
        assert(suffix.take(i - start) =~= suffix);
    }
    Some(total)
}

// ----- differences of a sparse array along one axis -----

/// Why a sparse difference was refused.
#[derive(Debug, Clone, Copy, PartialEq, Eq, Structural)]
pub enum SparseDiffError {
    /// The source holds a different number of entries than there are
    /// active indices.
    SourceLengthMismatch { source_len: usize, active_len: usize },
    /// The number of cells of the shape, or a block of it, leaves `usize`.
    ShapeTooLarge,
    /// An active index lies outside the array.
    ActiveIndexOutOfRange { index: usize, position: usize, total: usize },
    /// The active indices are not strictly increasing.
    NotStrictlyIncreasing,
}

/// Which source entries make up one cell of a difference: the later
/// neighbour counted positively, the earlier one negatively.
#[derive(Debug, Clone, Copy, PartialEq, Eq, Structural)]
pub enum SparseDiffContribution {
    Positive(usize),
    Negative(usize),
    Both { positive: usize, negative: usize },
}

/// The geometry of a difference along one axis: the size of that axis, the
/// distance between neighbours along it, and the size of one block of it.
#[derive(Debug, Clone, Copy, PartialEq, Eq, Structural)]
pub struct SparseDiffMapping {
    pub axis_size: usize,
    pub source_stride: usize,
    pub source_block: usize,
}

impl SparseDiffMapping {
    pub open spec fn wf(self) -> bool {
        &&& self.axis_size >= 1
        &&& self.source_block == self.source_stride * self.axis_size
    }

    /// The mapping of a shape and an axis, when its block fits in `usize`.
    pub open spec fn of_shape(shape: Seq<usize>, axis: int) -> Option<SparseDiffMapping> {
        match checked_product_of(shape.subrange(axis + 1, shape.len() as int)) {
            Some(stride) => if stride * shape[axis] <= usize::MAX {
                Some(
                    SparseDiffMapping {
                        axis_size: shape[axis],
                        source_stride: stride as usize,
                        source_block: (stride * shape[axis]) as usize,
                    },
                )
            } else {
                None
            },
            None => None,
        }
    }

    /// The output cell that active index `a` feeds, positively (as the later
    /// neighbour) or negatively (as the earlier one), if any.
    pub open spec fn target_of(self, a: usize, positive: bool) -> Option<usize> {
        let coordinate = (a / self.source_stride) % self.axis_size;
        let valid = if positive {
            coordinate > 0
        } else {
            coordinate + 1 < self.axis_size
        };
        if valid {
            Some(
                (a - (a / self.source_block) * self.source_stride - (if positive {
                    self.source_stride as int
                } else {
                    0
                })) as usize,
            )
        } else {
            None
        }
    }

    /// The pairs (output cell, source position) fed from the active indices
    /// at positions `p..`, in order.
    pub open spec fn stream_from(self, active: Seq<usize>, p: int, positive: bool) -> Seq<
        (usize, usize),
    >
        decreases active.len() - p,
    {
        if p < 0 || p >= active.len() || self.source_stride == 0 {
            Seq::empty()
        } else {
            match self.target_of(active[p], positive) {
                Some(t) => seq![(t, p as usize)] + self.stream_from(active, p + 1, positive),
                None => self.stream_from(active, p + 1, positive),
            }
        }
    }

    /// The geometry of a difference along `axis` of `shape`.
    pub fn new(shape: &[usize], axis: usize) -> (mapping: Result<Self, SparseDiffError>)
        requires
            axis < shape.len(),
        ensures
            match mapping {
                Ok(m) => Self::of_shape(shape@, axis as int) == Some(m),
                Err(e) => Self::of_shape(shape@, axis as int) is None && e
                    == SparseDiffError::ShapeTooLarge,
            },
    {
        let source_stride = match checked_product_from(shape, axis + 1) {
            Some(stride) => stride,
            None => {
                return Err(SparseDiffError::ShapeTooLarge);
            },
        };
        let source_block = match source_stride.checked_mul(shape[axis]) {
            Some(block) => block,
            None => {
                return Err(SparseDiffError::ShapeTooLarge);
            },
        };
        Ok(SparseDiffMapping { axis_size: shape[axis], source_block, source_stride })
    }

    /// The next pair of the stream from `*source_pos`, moving past it.
    pub fn next(&self, active_indices: &[usize], source_pos: &mut usize, positive: bool) -> (found:
        Option<(usize, usize)>)
        requires
            self.wf(),
            *old(source_pos) <= active_indices.len(),
        ensures
            *final(source_pos) <= active_indices.len(),
            found is Some ==> *final(source_pos) > *old(source_pos),
            match found {
                Some(pair) => {
                    &&& pair.1 < active_indices.len()
                    &&& self.stream_from(active_indices@, *old(source_pos) as int, positive) == seq![
                        pair,
                    ] + self.stream_from(active_indices@, *final(source_pos) as int, positive)
                },
                None => self.stream_from(active_indices@, *old(source_pos) as int, positive)
                    == Seq::<(usize, usize)>::empty(),
            },
    {
        let ghost start = *source_pos;
        while *source_pos < active_indices.len()
            invariant
                self.wf(),
                start == *old(source_pos),
                start <= *source_pos <= active_indices.len(),
                self.stream_from(active_indices@, start as int, positive) == self.stream_from(
                    active_indices@,
                    *source_pos as int,
                    positive,
                ),
            decreases active_indices.len() - *source_pos,
        {
            let active_idx = active_indices[*source_pos];
            let current_source_pos = *source_pos;
            *source_pos = *source_pos + 1;
            if self.source_stride == 0 {
                return None;
            }
            assert(self.source_block > 0) by (nonlinear_arith)
                requires
                    self.source_block == self.source_stride * self.axis_size,
                    self.source_stride > 0,
                    self.axis_size >= 1,
            ;
            let axis_coordinate = (active_idx / self.source_stride) % self.axis_size;
            let valid = if positive {
                axis_coordinate > 0
            } else {
                axis_coordinate < self.axis_size.saturating_sub(1)
            };
            if !valid {
                continue;
            }
            let outer = active_idx / self.source_block;
            proof {
                lemma_diff_offset(
                    active_idx as int,
                    self.source_stride as int,
                    self.axis_size as int,
                    positive,
                );
            }
            let output_flat = active_idx - outer * self.source_stride - if positive {
                self.source_stride
            } else {
                0
            };
            assert(self.target_of(active_idx, positive) == Some(output_flat));
            return Some((output_flat, current_source_pos));
        }
        None
    }
}

/// The offset subtracted from an active index to reach its output cell
/// never exceeds the index.
proof fn lemma_diff_offset(a: int, s: int, n: int, positive: bool)
    requires
        a >= 0,
        s > 0,
        n >= 1,
        positive ==> (a / s) % n > 0,
    ensures
        (a / (s * n)) * s <= a,
        (a / (s * n)) * s + (if positive {
            s
        } else {
            0
        }) <= a,
{
    let q = a / s;
    vstd::arithmetic::div_mod::lemma_div_denominator(a, s, n);
    vstd::arithmetic::div_mod::lemma_fundamental_div_mod(a, s);
    vstd::arithmetic::div_mod::lemma_fundamental_div_mod(q, n);
    vstd::arithmetic::div_mod::lemma_mod_pos_bound(a, s);
    vstd::arithmetic::div_mod::lemma_mod_pos_bound(q, n);
    let o = q / n;
    let c = q % n;
    let k: int = if positive {
        1
    } else {
        0
    };
    assert(q >= 0) by (nonlinear_arith)
        requires
            a >= 0,
            s > 0,
            q == a / s,
    ;
    assert(o >= 0) by (nonlinear_arith)
        requires
            q >= 0,
            n > 0,
            o == q / n,
    ;
    assert(o + k <= q) by (nonlinear_arith)
        requires
            q == n * o + c,
            o >= 0,
            n >= 1,
            c >= 0,
            positive ==> c > 0,
            k == (if positive {
                1int
            } else {
                0int
            }),
    ;
    assert((o + k) * s <= a) by (nonlinear_arith)
        requires
            o + k <= q,
            a == s * q + a % s,
            a % s >= 0,
            s > 0,
    ;
    assert((a / (s * n)) * s + k * s <= a) by (nonlinear_arith)
        requires
            (o + k) * s <= a,
            o == a / (s * n),
            k >= 0,
            s > 0,
    ;
}


/// The source position at the head of `row` when it feeds cell `at` and its
/// source entry is not zero.
pub open spec fn live_head(row: Seq<(usize, usize)>, at: usize, zero: Seq<bool>) -> Option<usize> {
    if row.len() > 0 && row[0].0 == at && !zero[row[0].1 as int] {
        Some(row[0].1)
    } else {
        None
    }
}

pub open spec fn contribution_of(positive: Option<usize>, negative: Option<usize>) -> Option<
    SparseDiffContribution,
> {
    match (positive, negative) {
        (Some(p), Some(n)) => Some(SparseDiffContribution::Both { positive: p, negative: n }),
        (Some(p), None) => Some(SparseDiffContribution::Positive(p)),
        (None, Some(n)) => Some(SparseDiffContribution::Negative(n)),
        (None, None) => None,
    }
}

/// The cell a merge step handles: the smaller of the two head cells.
pub open spec fn head_cell(pos: Seq<(usize, usize)>, neg: Seq<(usize, usize)>) -> usize {
    if pos.len() == 0 {
        neg[0].0
    } else if neg.len() == 0 {
        pos[0].0
    } else if pos[0].0 <= neg[0].0 {
        pos[0].0
    } else {
        neg[0].0
    }
}

/// A stream with its head removed when the head feeds cell `at`.
pub open spec fn past(row: Seq<(usize, usize)>, at: usize) -> Seq<(usize, usize)> {
    if row.len() > 0 && row[0].0 == at {
        row.drop_first()
    } else {
        row
    }
}

/// The cells of a difference, in order, from the stream of positive
/// contributions and the stream of negative ones: each step takes the
/// smaller head cell, pairs the heads that feed it, and leaves out a cell
/// whose feeding entries are all zero.
pub open spec fn merge_rows(pos: Seq<(usize, usize)>, neg: Seq<(usize, usize)>, zero: Seq<bool>) -> Seq<
    (usize, SparseDiffContribution),
>
    decreases pos.len() + neg.len(),
{
    if pos.len() == 0 && neg.len() == 0 {
        Seq::empty()
    } else {
        let at = head_cell(pos, neg);
        let rest = merge_rows(past(pos, at), past(neg, at), zero);
        match contribution_of(live_head(pos, at, zero), live_head(neg, at, zero)) {
            Some(c) => seq![(at, c)] + rest,
            None => rest,
        }
    }
}

/// A position in one of the two streams of a difference.
struct SparseDiffCursor {
    source_pos: usize,
    positive: bool,
    current: Option<(usize, usize)>,
}

impl SparseDiffCursor {
    spec fn remaining(self, mapping: SparseDiffMapping, active: Seq<usize>) -> Seq<(usize, usize)> {
        match self.current {
            Some(pair) => seq![pair] + mapping.stream_from(
                active,
                self.source_pos as int,
                self.positive,
            ),
            None => Seq::empty(),
        }
    }

    spec fn bounded(self, len: nat) -> bool {
        &&& self.source_pos <= len
        &&& self.current matches Some(pair) ==> pair.1 < len
    }

    fn new(positive: bool) -> (cursor: Self)
        ensures
            cursor.source_pos == 0,
            cursor.positive == positive,
    {
        SparseDiffCursor { source_pos: 0, positive, current: None }
    }

    fn advance(&mut self, mapping: &SparseDiffMapping, active_indices: &[usize])
        requires
            mapping.wf(),
            old(self).source_pos <= active_indices.len(),
        ensures
            final(self).positive == old(self).positive,
            final(self).bounded(active_indices@.len()),
            final(self).remaining(*mapping, active_indices@) == mapping.stream_from(
                active_indices@,
                old(self).source_pos as int,
                old(self).positive,
            ),
    {
        let mut source_pos = self.source_pos;
        self.current = mapping.next(active_indices, &mut source_pos, self.positive);
        self.source_pos = source_pos;
    }

    fn source_pos_at(&self, output_idx: usize) -> (found: Option<usize>)
        ensures
            found == (match self.current {
                Some(pair) => if pair.0 == output_idx {
                    Some(pair.1)
                } else {
                    None
                },
                None => None,
            }),
    {
        match self.current {
            Some((current_idx, source_pos)) => if current_idx == output_idx {
                Some(source_pos)
            } else {
                None
            },
            None => None,
        }
    }
}

/// The cells of the difference described by `mapping`, each with the
/// source entries that feed it, in increasing order of cell.
pub fn merge_sparse_diff_rows(
    mapping: &SparseDiffMapping,
    active_indices: &[usize],
    zero: &[bool],
) -> (rows: Vec<(usize, SparseDiffContribution)>)
    requires
        mapping.wf(),
        zero.len() == active_indices.len(),
    ensures
        rows@ == merge_rows(
            mapping.stream_from(active_indices@, 0, true),
            mapping.stream_from(active_indices@, 0, false),
            zero@,
        ),
{
    let ghost full_pos = mapping.stream_from(active_indices@, 0, true);
    let ghost full_neg = mapping.stream_from(active_indices@, 0, false);
    let mut positive = SparseDiffCursor::new(true);
    let mut negative = SparseDiffCursor::new(false);
    positive.advance(mapping, active_indices);
    negative.advance(mapping, active_indices);
    let mut rows: Vec<(usize, SparseDiffContribution)> = Vec::new();
    while positive.current.is_some() || negative.current.is_some()
        invariant
            mapping.wf(),
            zero.len() == active_indices.len(),
            positive.positive,
            !negative.positive,
            positive.bounded(active_indices@.len()),
            negative.bounded(active_indices@.len()),
            full_pos == mapping.stream_from(active_indices@, 0, true),
            full_neg == mapping.stream_from(active_indices@, 0, false),
            rows@ + merge_rows(
                positive.remaining(*mapping, active_indices@),
                negative.remaining(*mapping, active_indices@),
                zero@,
            ) == merge_rows(full_pos, full_neg, zero@),
        decreases positive.remaining(*mapping, active_indices@).len() + negative.remaining(
            *mapping,
            active_indices@,
        ).len(),
    {
        let ghost pos_rem = positive.remaining(*mapping, active_indices@);
        let ghost neg_rem = negative.remaining(*mapping, active_indices@);
        let current_idx = match (positive.current, negative.current) {
            (Some((positive_idx, _)), Some((negative_idx, _))) => if positive_idx <= negative_idx {
                positive_idx
            } else {
                negative_idx
            },
            (Some((positive_idx, _)), None) => positive_idx,
            (None, Some((negative_idx, _))) => negative_idx,
            (None, None) => {
                return rows;
            },
        };
        let positive_pos = positive.source_pos_at(current_idx);
        let negative_pos = negative.source_pos_at(current_idx);
        let live_positive = match positive_pos {
            Some(source_pos) => if zero[source_pos] {
                None
            } else {
                Some(source_pos)
            },
            None => None,
        };
        let live_negative = match negative_pos {
            Some(source_pos) => if zero[source_pos] {
                None
            } else {
                Some(source_pos)
            },
            None => None,
        };
        let contribution = match (live_positive, live_negative) {
            (Some(positive), Some(negative)) => Some(
                SparseDiffContribution::Both { positive, negative },
            ),
            (Some(positive), None) => Some(SparseDiffContribution::Positive(positive)),
            (None, Some(negative)) => Some(SparseDiffContribution::Negative(negative)),
            (None, None) => None,
        };
        proof {
            assert(live_positive == live_head(pos_rem, current_idx, zero@));
            assert(live_negative == live_head(neg_rem, current_idx, zero@));
            assert(contribution == contribution_of(live_positive, live_negative));
        }
        let ghost rows_before = rows@;
        match contribution {
            Some(c) => {
                rows.push((current_idx, c));
            },
            None => {},
        }
        if positive_pos.is_some() {
            positive.advance(mapping, active_indices);
            assert(positive.remaining(*mapping, active_indices@) =~= pos_rem.drop_first());
        }
        if negative_pos.is_some() {
            negative.advance(mapping, active_indices);
            assert(negative.remaining(*mapping, active_indices@) =~= neg_rem.drop_first());
        }
        proof {
            let rest = merge_rows(
                positive.remaining(*mapping, active_indices@),
                negative.remaining(*mapping, active_indices@),
                zero@,
            );
            match contribution {
                Some(c) => {
                    assert(merge_rows(pos_rem, neg_rem, zero@) == seq![(current_idx, c)] + rest);
                    assert(rows@ + rest =~= rows_before + (seq![(current_idx, c)] + rest));
                },
                None => {
                    assert(merge_rows(pos_rem, neg_rem, zero@) == rest);
                },
            }
        }
    }
    proof {
        assert(merge_rows(
            positive.remaining(*mapping, active_indices@),
            negative.remaining(*mapping, active_indices@),
            zero@,
        ) =~= Seq::empty());
        assert(rows@ + Seq::<(usize, SparseDiffContribution)>::empty() =~= rows@);
    }
    rows
}


/// The first position from `p` on whose active index lies outside an array
/// of `total` cells or does not exceed the index before it.
pub open spec fn first_invalid_from(active: Seq<usize>, total: nat, p: int) -> Option<int>
    decreases active.len() - p,
{
    if p < 0 || p >= active.len() {
        None
    } else if active[p] >= total || (p > 0 && active[p - 1] >= active[p]) {
        Some(p)
    } else {
        first_invalid_from(active, total, p + 1)
    }
}

/// A shape with the size of one axis lowered by one, as a difference along
/// that axis leaves it.
pub open spec fn diff_shape(shape: Seq<usize>, axis: int) -> Seq<usize> {
    shape.update(axis, (if shape[axis] > 0 { shape[axis] - 1 } else { 0 }) as usize)
}

/// The shape of a difference and its cells, each with the source entries
/// that feed it.
pub struct SparseDiffRows {
    pub shape: Vec<usize>,
    pub rows: Vec<(usize, SparseDiffContribution)>,
}

/// Differences along `axis` of a sparse array of `shape` whose active
/// entries sit at `active_indices`; `zero` marks the source entries that
/// are zero. The indices are checked first: one flag per index, a shape
/// whose size fits in `usize`, and indices inside it in strictly increasing
/// order.
pub fn diff_sparse_rows(shape: &[usize], axis: usize, active_indices: &[usize], zero: &[bool]) -> (result:
    Result<SparseDiffRows, SparseDiffError>)
    requires
        axis < shape.len(),
    ensures
        zero.len() != active_indices.len() ==> result == Err::<SparseDiffRows, SparseDiffError>(
            SparseDiffError::SourceLengthMismatch {
                source_len: zero.len(),
                active_len: active_indices.len(),
            },
        ),
        zero.len() == active_indices.len() && checked_product_of(shape@) is None ==> result
            == Err::<SparseDiffRows, SparseDiffError>(SparseDiffError::ShapeTooLarge),
        zero.len() == active_indices.len() ==> match checked_product_of(shape@) {
            None => true,
            Some(total) => match first_invalid_from(active_indices@, total, 0) {
                Some(p) => result == Err::<SparseDiffRows, SparseDiffError>(
                    if active_indices@[p] >= total {
                        SparseDiffError::ActiveIndexOutOfRange {
                            index: active_indices@[p],
                            position: p as usize,
                            total: total as usize,
                        }
                    } else {
                        SparseDiffError::NotStrictlyIncreasing
                    },
                ),
                None => if shape@[axis as int] <= 1 {
                    result matches Ok(d) && d.rows@.len() == 0
                } else {
                    match SparseDiffMapping::of_shape(shape@, axis as int) {
                        None => result == Err::<SparseDiffRows, SparseDiffError>(
                            SparseDiffError::ShapeTooLarge,
                        ),
                        Some(m) => result matches Ok(d) && d.rows@ == merge_rows(
                            m.stream_from(active_indices@, 0, true),
                            m.stream_from(active_indices@, 0, false),
                            zero@,
                        ),
                    }
                },
            },
        },
        result matches Ok(d) ==> d.shape@ == diff_shape(shape@, axis as int),
{
    if zero.len() != active_indices.len() {
        return Err(
            SparseDiffError::SourceLengthMismatch {
                source_len: zero.len(),
                active_len: active_indices.len(),
            },
        );
    }
    let source_total = match checked_product_from(shape, 0) {
        Some(total) => total,
        None => {
            assert(shape@.subrange(0, shape@.len() as int) =~= shape@);
            return Err(SparseDiffError::ShapeTooLarge);
        },
    };
    assert(shape@.subrange(0, shape@.len() as int) =~= shape@);
    let mut position: usize = 0;
    while position < active_indices.len()
        invariant
            position <= active_indices.len(),
            zero.len() == active_indices.len(),
            checked_product_of(shape@) == Some(source_total as nat),
            first_invalid_from(active_indices@, source_total as nat, 0) == first_invalid_from(
                active_indices@,
                source_total as nat,
                position as int,
            ),
        decreases active_indices.len() - position,
    {
        let active_idx = active_indices[position];
        if active_idx >= source_total {
            return Err(
                SparseDiffError::ActiveIndexOutOfRange {
                    index: active_idx,
                    position,
                    total: source_total,
                },
            );
        }
        if position > 0 && active_indices[position - 1] >= active_idx {
            return Err(SparseDiffError::NotStrictlyIncreasing);
        }
        position = position + 1;
    }
    let axis_size = shape[axis];
    let mut out_shape = crate::dense_mapping::copy_indices(shape);
    out_shape.set(axis, axis_size.saturating_sub(1));
    assert(out_shape@ =~= diff_shape(shape@, axis as int));
    if axis_size <= 1 {
        return Ok(SparseDiffRows { shape: out_shape, rows: Vec::new() });
    }
    let mapping = match SparseDiffMapping::new(shape, axis) {
        Ok(mapping) => mapping,
        Err(e) => {
            return Err(e);
        },
    };
    let merged = merge_sparse_diff_rows(&mapping, active_indices, zero);
    let mut rows: Vec<(usize, SparseDiffContribution)> = Vec::with_capacity(merged.len());
    let mut k: usize = 0;
    while k < merged.len()
        invariant
            k <= merged@.len(),
            rows@ == merged@.take(k as int),
        decreases merged@.len() - k,
    {
        rows.push(merged[k]);
        k = k + 1;
        assert(rows@ =~= merged@.take(k as int));
    }
    assert(merged@.take(k as int) =~= merged@);
    Ok(SparseDiffRows { shape: out_shape, rows })
}


// ----- laws of differences -----

/// The cells of a sequence of (cell, payload) pairs.
pub open spec fn cells_of<X>(rows: Seq<(usize, X)>) -> Seq<usize> {
    rows.map_values(|row: (usize, X)| row.0)
}

/// The source position counted positively in a contribution, if any.
pub open spec fn positive_part(c: SparseDiffContribution) -> Option<usize> {
    match c {
        SparseDiffContribution::Positive(p) => Some(p),
        SparseDiffContribution::Negative(_) => None,
        SparseDiffContribution::Both { positive, negative: _ } => Some(positive),
    }
}

/// The source position counted negatively in a contribution, if any.
pub open spec fn negative_part(c: SparseDiffContribution) -> Option<usize> {
    match c {
        SparseDiffContribution::Positive(_) => None,
        SparseDiffContribution::Negative(n) => Some(n),
        SparseDiffContribution::Both { positive: _, negative } => Some(negative),
    }
}

proof fn lemma_mixed_lt(x1: int, z1: int, x2: int, z2: int, radix: int)
    requires
        x1 < x2,
        0 <= z1 < radix,
        0 <= z2,
    ensures
        x1 * radix + z1 < x2 * radix + z2,
{
    assert(x1 * radix + z1 < x2 * radix + z2) by (nonlinear_arith)
        requires
            x1 < x2,
            0 <= z1 < radix,
            0 <= z2,
    ;
}

/// An active index and the cell it feeds, written in mixed radix: block,
/// coordinate along the axis, and offset inside one step of the axis.
proof fn lemma_target_digits(m: SparseDiffMapping, a: usize, positive: bool)
    requires
        m.wf(),
        m.source_stride > 0,
        m.target_of(a, positive) is Some,
    ensures
        ({
            let s = m.source_stride as int;
            let n = m.axis_size as int;
            let q = a as int / s;
            let o = q / n;
            let c = q % n;
            let e = c - (if positive {
                1int
            } else {
                0int
            });
            &&& 0 <= e < n - 1
            &&& 0 <= a as int % s < s
            &&& 0 <= o
            &&& 0 <= c < n
            &&& q == o * n + c
            &&& a as int == q * s + a as int % s
            &&& m.target_of(a, positive)->0 as int == (o * (n - 1) + e) * s + a as int % s
        }),
{
    let s = m.source_stride as int;
    let n = m.axis_size as int;
    let q = a as int / s;
    let o = q / n;
    let c = q % n;
    let k: int = if positive {
        1
    } else {
        0
    };
    vstd::arithmetic::div_mod::lemma_div_denominator(a as int, s, n);
    vstd::arithmetic::div_mod::lemma_fundamental_div_mod(a as int, s);
    vstd::arithmetic::div_mod::lemma_fundamental_div_mod(q, n);
    vstd::arithmetic::div_mod::lemma_mod_pos_bound(a as int, s);
    assert(q >= 0) by (nonlinear_arith)
        requires
            a >= 0,
            s > 0,
            q == a as int / s,
    ;
    vstd::arithmetic::div_mod::lemma_mod_pos_bound(q, n);
    assert(o >= 0) by (nonlinear_arith)
        requires
            q >= 0,
            n > 0,
            o == q / n,
    ;
    lemma_diff_offset(a as int, s, n, positive);
    assert(m.source_block as int == s * n);
    assert(a as int / (s * n) == o);
    assert(a as int - o * s - k * s == (o * (n - 1) + (c - k)) * s + a as int % s) by (
    nonlinear_arith)
        requires
            a as int == s * q + a as int % s,
            q == n * o + c,
    ;
}

/// Along one direction, a larger active index feeds a larger cell.
proof fn lemma_target_increasing(m: SparseDiffMapping, a1: usize, a2: usize, positive: bool)
    requires
        m.wf(),
        m.source_stride > 0,
        a1 < a2,
        m.target_of(a1, positive) is Some,
        m.target_of(a2, positive) is Some,
    ensures
        m.target_of(a1, positive)->0 < m.target_of(a2, positive)->0,
{
    lemma_target_digits(m, a1, positive);
    lemma_target_digits(m, a2, positive);
    let s = m.source_stride as int;
    let n = m.axis_size as int;
    let q1 = a1 as int / s;
    let q2 = a2 as int / s;
    let o1 = q1 / n;
    let o2 = q2 / n;
    let k: int = if positive {
        1
    } else {
        0
    };
    let e1 = q1 % n - k;
    let e2 = q2 % n - k;
    let r1 = a1 as int % s;
    let r2 = a2 as int % s;
    vstd::arithmetic::div_mod::lemma_div_is_ordered(a1 as int, a2 as int, s);
    if q1 == q2 {
        assert(r1 < r2);
    } else {
        vstd::arithmetic::div_mod::lemma_div_is_ordered(q1, q2, n);
        if o1 < o2 {
            lemma_mixed_lt(o1, e1, o2, e2, n - 1);
        } else {
            assert(e1 < e2);
        }
        assert(o1 * (n - 1) + e1 < o2 * (n - 1) + e2);
        lemma_mixed_lt(o1 * (n - 1) + e1, r1, o2 * (n - 1) + e2, r2, s);
    }
}

/// A stream lists, in increasing order of cell, the cells fed from the
/// active indices at positions `p..`, each with its position.
proof fn lemma_stream_from(m: SparseDiffMapping, active: Seq<usize>, p: int, positive: bool)
    requires
        m.wf(),
        strictly_sorted(active),
        active.len() <= usize::MAX,
        0 <= p,
    ensures
        strictly_sorted(cells_of(m.stream_from(active, p, positive))),
        forall|k: int|
            0 <= k < m.stream_from(active, p, positive).len() ==> {
                let pair = #[trigger] m.stream_from(active, p, positive)[k];
                &&& p <= pair.1 < active.len()
                &&& m.target_of(active[pair.1 as int], positive) == Some(pair.0)
            },
        m.source_stride > 0 ==> forall|i: int|
            p <= i < active.len() && #[trigger] m.target_of(active[i], positive) is Some ==> exists|
                k: int,
            |
                0 <= k < m.stream_from(active, p, positive).len() && m.stream_from(
                    active,
                    p,
                    positive,
                )[k] == (m.target_of(active[i], positive)->0, i as usize),
    decreases active.len() - p,
{
    let st = m.stream_from(active, p, positive);
    if p >= active.len() || m.source_stride == 0 {
    } else {
        lemma_stream_from(m, active, p + 1, positive);
        let rest = m.stream_from(active, p + 1, positive);
        match m.target_of(active[p], positive) {
            Some(t) => {
                assert(st == seq![(t, p as usize)] + rest);
                assert forall|k: int| 0 <= k < rest.len() implies t < #[trigger] rest[k].0 by {
                    let j = rest[k].1 as int;
                    assert(active[p] < active[j]);
                    lemma_target_increasing(m, active[p], active[j], positive);
                }
                assert forall|i: int, j: int| 0 <= i < j < cells_of(st).len() implies cells_of(
                    st,
                )[i] < cells_of(st)[j] by {
                    if i == 0 {
                        assert(st[j] == rest[j - 1]);
                    } else {
                        assert(st[i] == rest[i - 1]);
                        assert(st[j] == rest[j - 1]);
                        assert(cells_of(rest)[i - 1] < cells_of(rest)[j - 1]);
                    }
                }
                assert forall|k: int| 0 <= k < st.len() implies {
                    let pair = #[trigger] st[k];
                    &&& p <= pair.1 < active.len()
                    &&& m.target_of(active[pair.1 as int], positive) == Some(pair.0)
                } by {
                    if k > 0 {
                        assert(st[k] == rest[k - 1]);
                    }
                }
                assert forall|i: int|
                    p <= i < active.len() && #[trigger] m.target_of(active[i], positive) is Some implies exists|
                    k: int,
                |
                    0 <= k < st.len() && st[k] == (m.target_of(active[i], positive)->0, i as usize) by {
                    if i == p {
                        assert(st[0] == (t, p as usize));
                    } else {
                        let k = choose|k: int|
                            0 <= k < rest.len() && rest[k] == (
                                m.target_of(active[i], positive)->0,
                                i as usize,
                            );
                        assert(st[k + 1] == rest[k]);
                    }
                }
            },
            None => {
                assert(st == rest);
            },
        }
    }
}


/// The source position of a contribution counted in the given direction.
pub open spec fn part(c: SparseDiffContribution, positive: bool) -> Option<usize> {
    if positive {
        positive_part(c)
    } else {
        negative_part(c)
    }
}

/// Rows in strictly increasing order of cell.
#[verifier::opaque]
pub open spec fn rows_sorted<X>(rows: Seq<(usize, X)>) -> bool {
    strictly_sorted(cells_of(rows))
}

/// Every row's cell is the cell of a pair of one of the two streams.
#[verifier::opaque]
pub open spec fn rows_within(
    pos: Seq<(usize, usize)>,
    neg: Seq<(usize, usize)>,
    out: Seq<(usize, SparseDiffContribution)>,
) -> bool {
    forall|k: int|
        0 <= k < out.len() ==> (exists|i: int| 0 <= i < pos.len() && pos[i].0 == #[trigger] out[k].0)
            || (exists|j: int| 0 <= j < neg.len() && neg[j].0 == out[k].0)
}

/// Every source position a row counts in one direction is a pair of that
/// direction's stream for the row's cell, and its entry is not zero.
#[verifier::opaque]
pub open spec fn rows_sound(
    row: Seq<(usize, usize)>,
    zero: Seq<bool>,
    out: Seq<(usize, SparseDiffContribution)>,
    positive: bool,
) -> bool {
    forall|k: int|
        0 <= k < out.len() && (#[trigger] part(out[k].1, positive)) is Some ==> {
            let p = part(out[k].1, positive)->0;
            &&& !zero[p as int]
            &&& exists|i: int| 0 <= i < row.len() && row[i] == (out[k].0, p)
        }
}

/// Every pair of one direction's stream whose entry is not zero is counted,
/// in that direction, by a row for its cell.
#[verifier::opaque]
pub open spec fn rows_complete(
    row: Seq<(usize, usize)>,
    zero: Seq<bool>,
    out: Seq<(usize, SparseDiffContribution)>,
    positive: bool,
) -> bool {
    forall|i: int|
        0 <= i < row.len() && !zero[(#[trigger] row[i]).1 as int] ==> exists|k: int|
            0 <= k < out.len() && out[k].0 == row[i].0 && part(out[k].1, positive) == Some(row[i].1)
}

proof fn lemma_part_of_contribution(lp: Option<usize>, ln: Option<usize>)
    ensures
        contribution_of(lp, ln) is Some ==> part(contribution_of(lp, ln)->0, true) == lp && part(
            contribution_of(lp, ln)->0,
            false,
        ) == ln,
        contribution_of(lp, ln) is None ==> lp is None && ln is None,
{
}

/// Removing the head that feeds `at` keeps a stream sorted, leaves only
/// cells beyond `at`, and shifts its pairs by at most one place.
proof fn lemma_past(row: Seq<(usize, usize)>, at: usize)
    requires
        strictly_sorted(cells_of(row)),
        row.len() > 0 ==> at <= row[0].0,
    ensures
        strictly_sorted(cells_of(past(row, at))),
        forall|i: int| 0 <= i < past(row, at).len() ==> at < #[trigger] past(row, at)[i].0,
        forall|i: int|
            0 <= i < past(row, at).len() ==> #[trigger] past(row, at)[i] == row[i + (if row.len()
                > 0 && row[0].0 == at {
                1int
            } else {
                0int
            })],
        past(row, at).len() + (if row.len() > 0 && row[0].0 == at {
            1int
        } else {
            0int
        }) == row.len(),
{
    let r2 = past(row, at);
    let off: int = if row.len() > 0 && row[0].0 == at {
        1
    } else {
        0
    };
    assert forall|i: int, j: int| 0 <= i < j < cells_of(r2).len() implies cells_of(r2)[i] < cells_of(
        r2,
    )[j] by {
        assert(cells_of(row)[i + off] < cells_of(row)[j + off]);
    }
    assert forall|i: int| 0 <= i < r2.len() implies at < #[trigger] r2[i].0 by {
        if i + off > 0 {
            assert(cells_of(row)[0] < cells_of(row)[i + off]);
        }
    }
}

proof fn lemma_step_sorted(rest: Seq<(usize, SparseDiffContribution)>, at: usize, head: Option<
    SparseDiffContribution,
>)
    requires
        rows_sorted(rest),
        forall|k: int| 0 <= k < rest.len() ==> at < #[trigger] rest[k].0,
    ensures
        rows_sorted(
            match head {
                Some(c) => seq![(at, c)] + rest,
                None => rest,
            },
        ),
{
    reveal(rows_sorted);
    match head {
        Some(c) => {
            let out = seq![(at, c)] + rest;
            assert forall|i: int, j: int| 0 <= i < j < cells_of(out).len() implies cells_of(out)[i]
                < cells_of(out)[j] by {
                assert(out[j] == rest[j - 1]);
                if i > 0 {
                    assert(out[i] == rest[i - 1]);
                    assert(cells_of(rest)[i - 1] < cells_of(rest)[j - 1]);
                }
            }
        },
        None => {},
    }
}

proof fn lemma_step_within(
    pos: Seq<(usize, usize)>,
    neg: Seq<(usize, usize)>,
    rest: Seq<(usize, SparseDiffContribution)>,
    head: Option<SparseDiffContribution>,
)
    requires
        pos.len() > 0 || neg.len() > 0,
        rows_within(
            past(pos, head_cell(pos, neg)),
            past(neg, head_cell(pos, neg)),
            rest,
        ),
        forall|i: int|
            0 <= i < past(pos, head_cell(pos, neg)).len() ==> #[trigger] past(pos, head_cell(pos, neg))[i]
                == pos[i + (pos.len() - past(pos, head_cell(pos, neg)).len())],
        forall|j: int|
            0 <= j < past(neg, head_cell(pos, neg)).len() ==> #[trigger] past(neg, head_cell(pos, neg))[j]
                == neg[j + (neg.len() - past(neg, head_cell(pos, neg)).len())],
        pos.len() - past(pos, head_cell(pos, neg)).len() >= 0,
        neg.len() - past(neg, head_cell(pos, neg)).len() >= 0,
    ensures
        rows_within(
            pos,
            neg,
            match head {
                Some(c) => seq![(head_cell(pos, neg), c)] + rest,
                None => rest,
            },
        ),
{
    reveal(rows_within);
    let at = head_cell(pos, neg);
    let pos2 = past(pos, at);
    let neg2 = past(neg, at);
    let dp = pos.len() - pos2.len();
    let dn = neg.len() - neg2.len();
    let out = match head {
        Some(c) => seq![(at, c)] + rest,
        None => rest,
    };
    let shift: int = if head is Some {
        1
    } else {
        0
    };
    assert forall|k: int| 0 <= k < out.len() implies (exists|i: int|
        0 <= i < pos.len() && pos[i].0 == #[trigger] out[k].0) || (exists|j: int|
        0 <= j < neg.len() && neg[j].0 == out[k].0) by {
        if k < shift {
            if pos.len() > 0 && pos[0].0 == at {
                assert(pos[0].0 == out[k].0);
            } else {
                assert(neg[0].0 == out[k].0);
            }
        } else {
            let r = rest[k - shift];
            assert(out[k] == r);
            if exists|i: int| 0 <= i < pos2.len() && pos2[i].0 == r.0 {
                let i = choose|i: int| 0 <= i < pos2.len() && pos2[i].0 == r.0;
                assert(pos[i + dp].0 == out[k].0);
            } else {
                let j = choose|j: int| 0 <= j < neg2.len() && neg2[j].0 == r.0;
                assert(neg[j + dn].0 == out[k].0);
            }
        }
    }
}

proof fn lemma_step_sound(
    row: Seq<(usize, usize)>,
    at: usize,
    zero: Seq<bool>,
    rest: Seq<(usize, SparseDiffContribution)>,
    head: Option<SparseDiffContribution>,
    positive: bool,
)
    requires
        rows_sound(past(row, at), zero, rest, positive),
        forall|i: int|
            0 <= i < past(row, at).len() ==> #[trigger] past(row, at)[i] == row[i + (row.len() - past(
                row,
                at,
            ).len())],
        head is Some ==> part(head->0, positive) == live_head(row, at, zero),
    ensures
        rows_sound(
            row,
            zero,
            match head {
                Some(c) => seq![(at, c)] + rest,
                None => rest,
            },
            positive,
        ),
{
    reveal(rows_sound);
    let row2 = past(row, at);
    let d = row.len() - row2.len();
    let out = match head {
        Some(c) => seq![(at, c)] + rest,
        None => rest,
    };
    let shift: int = if head is Some {
        1
    } else {
        0
    };
    assert forall|k: int| 0 <= k < out.len() && (#[trigger] part(out[k].1, positive)) is Some implies {
        let p = part(out[k].1, positive)->0;
        &&& !zero[p as int]
        &&& exists|i: int| 0 <= i < row.len() && row[i] == (out[k].0, p)
    } by {
        if k < shift {
            assert(row[0] == (out[0].0, part(out[0].1, positive)->0));
        } else {
            assert(out[k] == rest[k - shift]);
            let p = part(rest[k - shift].1, positive)->0;
            let i = choose|i: int| 0 <= i < row2.len() && row2[i] == (rest[k - shift].0, p);
            assert(row[i + d] == (out[k].0, p));
        }
    }
}

proof fn lemma_step_complete(
    row: Seq<(usize, usize)>,
    at: usize,
    zero: Seq<bool>,
    rest: Seq<(usize, SparseDiffContribution)>,
    head: Option<SparseDiffContribution>,
    positive: bool,
)
    requires
        rows_complete(past(row, at), zero, rest, positive),
        forall|i: int|
            0 <= i < past(row, at).len() ==> #[trigger] past(row, at)[i] == row[i + (row.len() - past(
                row,
                at,
            ).len())],
        row.len() - past(row, at).len() == (if row.len() > 0 && row[0].0 == at {
            1int
        } else {
            0int
        }),
        head is Some ==> part(head->0, positive) == live_head(row, at, zero),
        head is None ==> live_head(row, at, zero) is None,
    ensures
        rows_complete(
            row,
            zero,
            match head {
                Some(c) => seq![(at, c)] + rest,
                None => rest,
            },
            positive,
        ),
{
    reveal(rows_complete);
    let row2 = past(row, at);
    let d = row.len() - row2.len();
    let out = match head {
        Some(c) => seq![(at, c)] + rest,
        None => rest,
    };
    let shift: int = if head is Some {
        1
    } else {
        0
    };
    assert forall|i: int| 0 <= i < row.len() && !zero[(#[trigger] row[i]).1 as int] implies exists|
        k: int,
    | 0 <= k < out.len() && out[k].0 == row[i].0 && part(out[k].1, positive) == Some(row[i].1) by {
        if i == 0 && d == 1 {
            assert(out[0].0 == row[0].0 && part(out[0].1, positive) == Some(row[0].1));
        } else {
            assert(row2[i - d] == row[i]);
            let k = choose|k: int|
                0 <= k < rest.len() && rest[k].0 == row2[i - d].0 && part(rest[k].1, positive)
                    == Some(row2[i - d].1);
            assert(out[k + shift] == rest[k]);
        }
    }
}

/// Merging two streams that are each in increasing order of cell gives
/// rows in increasing order of cell; each row is fed only by stream pairs
/// for its cell whose entries are not zero, and each such pair feeds a row.
proof fn lemma_merge_rows(pos: Seq<(usize, usize)>, neg: Seq<(usize, usize)>, zero: Seq<bool>)
    requires
        strictly_sorted(cells_of(pos)),
        strictly_sorted(cells_of(neg)),
    ensures
        rows_sorted(merge_rows(pos, neg, zero)),
        rows_within(pos, neg, merge_rows(pos, neg, zero)),
        rows_sound(pos, zero, merge_rows(pos, neg, zero), true),
        rows_sound(neg, zero, merge_rows(pos, neg, zero), false),
        rows_complete(pos, zero, merge_rows(pos, neg, zero), true),
        rows_complete(neg, zero, merge_rows(pos, neg, zero), false),
    decreases pos.len() + neg.len(),
{
    if pos.len() == 0 && neg.len() == 0 {
        reveal(rows_sorted);
        reveal(rows_within);
        reveal(rows_sound);
        reveal(rows_complete);
        return;
    }
    let at = head_cell(pos, neg);
    lemma_past(pos, at);
    lemma_past(neg, at);
    let pos2 = past(pos, at);
    let neg2 = past(neg, at);
    assert(pos2.len() + neg2.len() < pos.len() + neg.len());
    lemma_merge_rows(pos2, neg2, zero);
    let rest = merge_rows(pos2, neg2, zero);
    let lp = live_head(pos, at, zero);
    let ln = live_head(neg, at, zero);
    let head = contribution_of(lp, ln);
    lemma_part_of_contribution(lp, ln);
    assert(merge_rows(pos, neg, zero) == match head {
        Some(c) => seq![(at, c)] + rest,
        None => rest,
    });
    assert forall|k: int| 0 <= k < rest.len() implies at < #[trigger] rest[k].0 by {
        reveal(rows_within);
        if exists|i: int| 0 <= i < pos2.len() && pos2[i].0 == rest[k].0 {
            let i = choose|i: int| 0 <= i < pos2.len() && pos2[i].0 == rest[k].0;
            assert(at < pos2[i].0);
        } else {
            let j = choose|j: int| 0 <= j < neg2.len() && neg2[j].0 == rest[k].0;
            assert(at < neg2[j].0);
        }
    }
    lemma_step_sorted(rest, at, head);
    lemma_step_within(pos, neg, rest, head);
    lemma_step_sound(pos, at, zero, rest, head, true);
    lemma_step_sound(neg, at, zero, rest, head, false);
    lemma_step_complete(pos, at, zero, rest, head, true);
    lemma_step_complete(neg, at, zero, rest, head, false);
}


/// What a sparse difference holds, for strictly increasing active indices:
/// its rows come in strictly increasing order of cell; a row counts an
/// entry in a direction only where that entry feeds the row's cell in that
/// direction (positively as the later neighbour along the axis, negatively
/// as the earlier one) and is not marked zero; and every entry not marked
/// zero is counted, in each direction in which it feeds a cell, by the row
/// of that cell.
pub proof fn lemma_diff_rows(m: SparseDiffMapping, active: Seq<usize>, zero: Seq<bool>)
    requires
        m.wf(),
        strictly_sorted(active),
        active.len() <= usize::MAX,
    ensures
        ({
            let rows = merge_rows(
                m.stream_from(active, 0, true),
                m.stream_from(active, 0, false),
                zero,
            );
            &&& strictly_sorted(cells_of(rows))
            &&& forall|k: int, positive: bool|
                0 <= k < rows.len() && (#[trigger] part(rows[k].1, positive)) is Some ==> {
                    let p = part(rows[k].1, positive)->0;
                    &&& p < active.len()
                    &&& !zero[p as int]
                    &&& m.target_of(active[p as int], positive) == Some(rows[k].0)
                }
            &&& m.source_stride > 0 ==> forall|p: int, positive: bool|
                0 <= p < active.len() && !zero[p] && (#[trigger] m.target_of(active[p], positive))
                    is Some ==> exists|k: int|
                    0 <= k < rows.len() && rows[k].0 == m.target_of(active[p], positive)->0 && part(
                        rows[k].1,
                        positive,
                    ) == Some(p as usize)
        }),
{
    let pos = m.stream_from(active, 0, true);
    let neg = m.stream_from(active, 0, false);
    lemma_stream_from(m, active, 0, true);
    lemma_stream_from(m, active, 0, false);
    lemma_merge_rows(pos, neg, zero);
    let rows = merge_rows(pos, neg, zero);
    reveal(rows_sorted);
    reveal(rows_sound);
    reveal(rows_complete);
    assert forall|k: int, positive: bool|
        0 <= k < rows.len() && (#[trigger] part(rows[k].1, positive)) is Some implies {
        let p = part(rows[k].1, positive)->0;
        &&& p < active.len()
        &&& !zero[p as int]
        &&& m.target_of(active[p as int], positive) == Some(rows[k].0)
    } by {
        let p = part(rows[k].1, positive)->0;
        let st = if positive {
            pos
        } else {
            neg
        };
        let i = choose|i: int| 0 <= i < st.len() && st[i] == (rows[k].0, p);
        assert(st[i] == m.stream_from(active, 0, positive)[i]);
    }
    if m.source_stride > 0 {
        assert forall|p: int, positive: bool|
            0 <= p < active.len() && !zero[p] && (#[trigger] m.target_of(active[p], positive))
                is Some implies exists|k: int|
            0 <= k < rows.len() && rows[k].0 == m.target_of(active[p], positive)->0 && part(
                rows[k].1,
                positive,
            ) == Some(p as usize) by {
            let st = if positive {
                pos
            } else {
                neg
            };
            assert(st == m.stream_from(active, 0, positive));
            let i = choose|i: int|
                0 <= i < st.len() && st[i] == (m.target_of(active[p], positive)->0, p as usize);
            assert(!zero[st[i].1 as int]);
        }
    }
}


/// Active indices that pass the checks of a difference lie inside the
/// array and are strictly increasing.
pub proof fn lemma_checked_active_indices(active: Seq<usize>, total: nat)
    requires
        first_invalid_from(active, total, 0) is None,
    ensures
        strictly_sorted(active),
        forall|i: int| 0 <= i < active.len() ==> active[i] < total,
{
    lemma_first_invalid_none(active, total, 0);
    assert forall|i: int, j: int| 0 <= i < j < active.len() implies active[i] < active[j] by {
        lemma_increasing_from(active, i, j);
    }
}

proof fn lemma_first_invalid_none(active: Seq<usize>, total: nat, p: int)
    requires
        0 <= p,
        first_invalid_from(active, total, p) is None,
    ensures
        forall|i: int| p <= i < active.len() ==> #[trigger] active[i] < total && (i > 0 ==> active[i - 1]
            < active[i]),
    decreases active.len() - p,
{
    if p < active.len() {
        lemma_first_invalid_none(active, total, p + 1);
    }
}

proof fn lemma_increasing_from(active: Seq<usize>, i: int, j: int)
    requires
        0 <= i < j < active.len(),
        forall|k: int| 0 < k < active.len() ==> active[k - 1] < #[trigger] active[k],
    ensures
        active[i] < active[j],
    decreases j - i,
{
    if j > i + 1 {
        lemma_increasing_from(active, i, j - 1);
    }
    assert(active[j - 1] < active[j]);
}


// ----- rolling along one axis -----

/// Flat index `flat` with its coordinate `c = (flat / stride) % axis_size`
/// along one axis replaced by `(c + shift) mod axis_size`.
pub open spec fn rolled_index(flat: int, stride: int, axis_size: int, shift: int) -> int {
    let c = (flat / stride) % axis_size;
    flat + ((c + shift) % axis_size - c) * stride
}

/// Rolling an axis back by the shift it was rolled by returns every cell
/// to where it was: the cell a rolled entry reads is the cell it came from.
pub proof fn lemma_roll_then_unroll(flat: int, stride: int, axis_size: int, shift: int)
    requires
        stride > 0,
        axis_size > 0,
    ensures
        rolled_index(rolled_index(flat, stride, axis_size, shift), stride, axis_size, -shift)
            == flat,
        (rolled_index(flat, stride, axis_size, shift) / stride) % axis_size == ((flat / stride)
            % axis_size + shift) % axis_size,
{
    let st = stride;
    let n = axis_size;
    let q = flat / st;
    let r = flat % st;
    vstd::arithmetic::div_mod::lemma_fundamental_div_mod(flat, st);
    vstd::arithmetic::div_mod::lemma_mod_bound(flat, st);
    let c = q % n;
    let m = q / n;
    vstd::arithmetic::div_mod::lemma_fundamental_div_mod(q, n);
    vstd::arithmetic::div_mod::lemma_mod_bound(q, n);
    let e = (c + shift) % n;
    let t = (c + shift) / n;
    vstd::arithmetic::div_mod::lemma_fundamental_div_mod(c + shift, n);
    vstd::arithmetic::div_mod::lemma_mod_bound(c + shift, n);
    let f1 = flat + (e - c) * st;
    assert(f1 == rolled_index(flat, st, n, shift));
    assert(f1 == (m * n + e) * st + r) by (nonlinear_arith)
        requires
            flat == st * q + r,
            q == n * m + c,
            f1 == flat + (e - c) * st,
    ;
    assert(f1 == st * (m * n + e) + r) by (nonlinear_arith)
        requires
            f1 == (m * n + e) * st + r,
    ;
    vstd::arithmetic::div_mod::lemma_fundamental_div_mod_converse(f1, st, m * n + e, r);
    assert(f1 == (m * n + e) * st + r) by (nonlinear_arith)
        requires
            f1 == st * (m * n + e) + r,
    ;
    vstd::arithmetic::div_mod::lemma_fundamental_div_mod_converse(m * n + e, n, m, e);
    assert((f1 / st) % n == e);
    assert(e + (-shift) == (-t) * n + c) by (nonlinear_arith)
        requires
            c + shift == n * t + e,
    ;
    vstd::arithmetic::div_mod::lemma_fundamental_div_mod_converse(e + (-shift), n, -t, c);
    assert((e + (-shift)) % n == c);
    assert(rolled_index(f1, st, n, -shift) == f1 + (c - e) * st);
    assert(f1 + (c - e) * st == flat) by (nonlinear_arith)
        requires
            f1 == flat + (e - c) * st,
    ;
}

/// `span(a)` is a whole multiple of `span(b)` for `a <= b`, in an array
/// that has a cell at `flat`.
proof fn lemma_span_multiple(shape: Seq<usize>, a: int, b: int, flat: int) -> (k: int)
    requires
        0 <= a <= b <= shape.len(),
        0 <= flat < crate::indexing::span(shape, 0),
    ensures
        k >= 1,
        crate::indexing::span(shape, a) == crate::indexing::span(shape, b) * k,
    decreases b - a,
{
    if a == b {
        1
    } else {
        let k0 = lemma_span_multiple(shape, a + 1, b, flat);
        crate::indexing::lemma_span_step(shape, a);
        lemma_span_positive(shape, a, flat);
        let sa = crate::indexing::span(shape, a) as int;
        let sa1 = crate::indexing::span(shape, a + 1) as int;
        let sb = crate::indexing::span(shape, b) as int;
        let m = shape[a] as int;
        assert(m >= 1) by (nonlinear_arith)
            requires
                sa == m * sa1,
                sa > 0,
                sa1 >= 0,
                m >= 0,
        ;
        assert(sa == sb * (m * k0)) by (nonlinear_arith)
            requires
                sa == m * sa1,
                sa1 == sb * k0,
        ;
        assert(m * k0 >= 1) by (nonlinear_arith)
            requires
                m >= 1,
                k0 >= 1,
        ;
        m * k0
    }
}

/// Moving a cell by whole blocks of `m * d` leaves its coordinate
/// `(x / d) % m` unchanged.
proof fn lemma_inner_coordinate_kept(x: int, delta: int, d: int, m: int, k: int)
    requires
        d > 0,
        m > 0,
    ensures
        ((x + delta * (m * d * k)) / d) % m == (x / d) % m,
{
    let q = x / d;
    vstd::arithmetic::div_mod::lemma_fundamental_div_mod(x, d);
    vstd::arithmetic::div_mod::lemma_mod_bound(x, d);
    let t = delta * m * k;
    assert(x + delta * (m * d * k) == (q + t) * d + x % d) by (nonlinear_arith)
        requires
            x == d * q + x % d,
            t == delta * m * k,
    ;
    vstd::arithmetic::div_mod::lemma_fundamental_div_mod_converse(
        x + delta * (m * d * k),
        d,
        q + t,
        x % d,
    );
    vstd::arithmetic::div_mod::lemma_fundamental_div_mod(q, m);
    vstd::arithmetic::div_mod::lemma_mod_bound(q, m);
    assert(q + t == (q / m + delta * k) * m + q % m) by (nonlinear_arith)
        requires
            q == m * (q / m) + q % m,
            t == delta * m * k,
    ;
    vstd::arithmetic::div_mod::lemma_fundamental_div_mod_converse(q + t, m, q / m + delta * k, q % m);
}

/// Rolling a coordinate of step `s` along an axis of `n` cells keeps the
/// cell inside its block of `d = n * s * k` cells.
proof fn lemma_outer_block_kept(x: int, s: int, n: int, k: int, shift: int)
    requires
        x >= 0,
        s > 0,
        n > 0,
        k >= 1,
    ensures
        rolled_index(x, s, n, shift) / (n * s * k) == x / (n * s * k),
        rolled_index(x, s, n, shift) >= 0,
{
    let d = n * s * k;
    assert(d > 0) by (nonlinear_arith)
        requires
            n > 0,
            s > 0,
            k >= 1,
            d == n * s * k,
    ;
    let q = x / d;
    let rem = x % d;
    vstd::arithmetic::div_mod::lemma_fundamental_div_mod(x, d);
    vstd::arithmetic::div_mod::lemma_mod_bound(x, d);
    vstd::arithmetic::div_mod::lemma_div_pos_is_pos(x, d);
    let u = rem / s;
    let w = rem % s;
    vstd::arithmetic::div_mod::lemma_fundamental_div_mod(rem, s);
    vstd::arithmetic::div_mod::lemma_mod_bound(rem, s);
    vstd::arithmetic::div_mod::lemma_div_pos_is_pos(rem, s);
    assert(u < n * k) by (nonlinear_arith)
        requires
            rem == s * u + w,
            0 <= w,
            rem < d,
            d == n * s * k,
            s > 0,
    ;
    let v = u / n;
    let cu = u % n;
    vstd::arithmetic::div_mod::lemma_fundamental_div_mod(u, n);
    vstd::arithmetic::div_mod::lemma_mod_bound(u, n);
    vstd::arithmetic::div_mod::lemma_div_pos_is_pos(u, n);
    assert(v < k) by (nonlinear_arith)
        requires
            u == n * v + cu,
            0 <= cu,
            u < n * k,
            n > 0,
    ;
    // the coordinate along the axis
    assert(x == s * (q * n * k + u) + w) by (nonlinear_arith)
        requires
            x == d * q + rem,
            rem == s * u + w,
            d == n * s * k,
    ;
    vstd::arithmetic::div_mod::lemma_fundamental_div_mod_converse(x, s, q * n * k + u, w);
    assert(q * n * k + u == (q * k + v) * n + cu) by (nonlinear_arith)
        requires
            u == n * v + cu,
    ;
    vstd::arithmetic::div_mod::lemma_fundamental_div_mod_converse(q * n * k + u, n, q * k + v, cu);
    let c = (x / s) % n;
    assert(c == cu);
    let e = (c + shift) % n;
    vstd::arithmetic::div_mod::lemma_mod_bound(c + shift, n);
    let r = rolled_index(x, s, n, shift);
    assert(r == x + (e - c) * s);
    let rr = s * (n * v + e) + w;
    assert(r == q * d + rr) by (nonlinear_arith)
        requires
            rr == s * (n * v + e) + w,
            r == x + (e - c) * s,
            x == d * q + rem,
            rem == s * u + w,
            u == n * v + c,
    ;
    assert(0 <= rr < d) by (nonlinear_arith)
        requires
            rr == s * (n * v + e) + w,
            0 <= v < k,
            0 <= e < n,
            0 <= w < s,
            d == n * s * k,
    ;
    vstd::arithmetic::div_mod::lemma_fundamental_div_mod_converse(r, d, q, rr);
    assert(r >= 0) by (nonlinear_arith)
        requires
            r == q * d + rr,
            q >= 0,
            d > 0,
            rr >= 0,
    ;
}

/// Rolling axis `axis` of a row-major array by `shift` moves every cell to
/// a cell of the array whose coordinate along `axis` is the old one plus
/// `shift`, modulo the axis length, and whose other coordinates are the
/// old ones; rolling back by `-shift` returns it.
pub proof fn lemma_roll_coordinates(shape: Seq<usize>, axis: int, flat: int, shift: int)
    requires
        0 <= axis < shape.len(),
        0 <= flat < crate::indexing::span(shape, 0),
    ensures
        ({
            let r = rolled_index(
                flat,
                crate::indexing::span(shape, axis + 1) as int,
                shape[axis] as int,
                shift,
            );
            &&& 0 <= r < crate::indexing::span(shape, 0)
            &&& coordinate(shape, r, axis) == (coordinate(shape, flat, axis) + shift) % (
            shape[axis] as int)
            &&& forall|j: int|
                0 <= j < shape.len() && j != axis ==> #[trigger] coordinate(shape, r, j)
                    == coordinate(shape, flat, j)
            &&& rolled_index(
                r,
                crate::indexing::span(shape, axis + 1) as int,
                shape[axis] as int,
                -shift,
            ) == flat
        }),
{
    let s = crate::indexing::span(shape, axis + 1) as int;
    let n = shape[axis] as int;
    crate::indexing::lemma_span_step(shape, axis);
    lemma_span_positive(shape, axis, flat);
    lemma_span_positive(shape, axis + 1, flat);
    assert(n > 0) by (nonlinear_arith)
        requires
            crate::indexing::span(shape, axis) == n * s,
            crate::indexing::span(shape, axis) > 0,
            s > 0,
    ;
    lemma_roll_then_unroll(flat, s, n, shift);
    let r = rolled_index(flat, s, n, shift);
    // inside the array
    let k0 = lemma_span_multiple(shape, 0, axis, flat);
    assert(crate::indexing::span(shape, 0) == n * s * k0) by (nonlinear_arith)
        requires
            crate::indexing::span(shape, 0) == crate::indexing::span(shape, axis) * k0,
            crate::indexing::span(shape, axis) == n * s,
    ;
    lemma_outer_block_kept(flat, s, n, k0, shift);
    vstd::arithmetic::div_mod::lemma_basic_div(flat, n * s * k0);
    assert(r / (n * s * k0) == 0);
    vstd::arithmetic::div_mod::lemma_fundamental_div_mod(r, n * s * k0);
    vstd::arithmetic::div_mod::lemma_mod_bound(r, n * s * k0);
    assert(r < crate::indexing::span(shape, 0));
    // the other coordinates
    assert forall|j: int| 0 <= j < shape.len() && j != axis implies #[trigger] coordinate(
        shape,
        r,
        j,
    ) == coordinate(shape, flat, j) by {
        let d = crate::indexing::span(shape, j + 1) as int;
        let m = shape[j] as int;
        crate::indexing::lemma_span_step(shape, j);
        lemma_span_positive(shape, j + 1, flat);
        lemma_span_positive(shape, j, flat);
        assert(m > 0) by (nonlinear_arith)
            requires
                crate::indexing::span(shape, j) == m * d,
                crate::indexing::span(shape, j) > 0,
                d > 0,
        ;
        if j > axis {
            let k = lemma_span_multiple(shape, axis + 1, j, flat);
            assert(s == m * d * k) by (nonlinear_arith)
                requires
                    s == crate::indexing::span(shape, j) * k,
                    crate::indexing::span(shape, j) == m * d,
            ;
            let e = (((flat / s) % n) + shift) % n;
            let delta = e - (flat / s) % n;
            assert(r == flat + delta * (m * d * k));
            lemma_inner_coordinate_kept(flat, delta, d, m, k);
        } else {
            let k = lemma_span_multiple(shape, j + 1, axis, flat);
            assert(d == n * s * k) by (nonlinear_arith)
                requires
                    d == crate::indexing::span(shape, axis) * k,
                    crate::indexing::span(shape, axis) == n * s,
            ;
            lemma_outer_block_kept(flat, s, n, k, shift);
        }
    }
}

/// The coordinate along axis `j` of the cell at flat index `flat` of a
/// row-major array of `shape`.
pub open spec fn coordinate(shape: Seq<usize>, flat: int, j: int) -> int {
    (flat / (crate::indexing::span(shape, j + 1) as int)) % (shape[j] as int)
}

/// The flat index of the cell that `flat_idx` lands on when axis
/// `roll_axis` of a row-major array of `shape` is rotated by `shift`.
pub fn sparse_rolled_flat_index(
    flat_idx: usize,
    shape: &[usize],
    strides: &[usize],
    roll_axis: usize,
    shift: isize,
) -> (rolled: usize)
    requires
        roll_axis < shape.len(),
        crate::indexing::spans_fit(shape@),
        strides@.len() == shape@.len(),
        forall|a: int|
            0 <= a < shape@.len() ==> #[trigger] strides@[a] == crate::indexing::span(shape@, a + 1),
        flat_idx < crate::indexing::span(shape@, 0),
        shape@[roll_axis as int] <= isize::MAX,
        coordinate(shape@, flat_idx as int, roll_axis as int) + shift <= isize::MAX,
    ensures
        rolled == rolled_index(
            flat_idx as int,
            strides@[roll_axis as int] as int,
            shape@[roll_axis as int] as int,
            shift as int,
        ),
        rolled < crate::indexing::span(shape@, 0),
        coordinate(shape@, rolled as int, roll_axis as int) == (coordinate(
            shape@,
            flat_idx as int,
            roll_axis as int,
        ) + shift) % (shape@[roll_axis as int] as int),
        forall|j: int|
            0 <= j < shape@.len() && j != roll_axis ==> #[trigger] coordinate(shape@, rolled as int, j)
                == coordinate(shape@, flat_idx as int, j),
{
    proof {
        lemma_roll_coordinates(shape@, roll_axis as int, flat_idx as int, shift as int);
    }
    let axis_size = shape[roll_axis];
    let ghost total = crate::indexing::span(shape@, 0);
    let ghost sr = strides@[roll_axis as int] as int;
    let ghost n = axis_size as int;
    let ghost delta = rolled_index(flat_idx as int, sr, n, shift as int) - flat_idx;
    proof {
        assert(shape@.subrange(0, shape@.len() as int) =~= shape@);
        assert(total <= usize::MAX);
        vstd::arithmetic::div_mod::lemma_small_mod(flat_idx as nat, total);
    }
    let mut remainder = flat_idx;
    let mut output_flat: usize = 0;
    let mut axis: usize = 0;
    while axis < strides.len()
        invariant
            roll_axis < shape@.len(),
            axis <= strides@.len(),
            strides@.len() == shape@.len(),
            crate::indexing::spans_fit(shape@),
            forall|a: int|
                0 <= a < shape@.len() ==> #[trigger] strides@[a] == crate::indexing::span(shape@, a + 1),
            total == crate::indexing::span(shape@, 0),
            total <= usize::MAX,
            flat_idx < total,
            axis_size == shape@[roll_axis as int],
            axis_size <= isize::MAX,
            coordinate(shape@, flat_idx as int, roll_axis as int) + shift <= isize::MAX,
            sr == strides@[roll_axis as int],
            n == axis_size,
            delta == rolled_index(flat_idx as int, sr, n, shift as int) - flat_idx,
            remainder == (flat_idx as int) % (crate::indexing::span(shape@, axis as int) as int),
            output_flat + crate::indexing::span(shape@, axis as int) <= total,
            output_flat == flat_idx - remainder + (if roll_axis < axis {
                delta
            } else {
                0
            }),
        decreases strides@.len() - axis,
    {
        let stride = strides[axis];
        let ghost size = shape@[axis as int] as int;
        proof {
            crate::indexing::lemma_span_step(shape@, axis as int);
            assert(crate::indexing::span(shape@, axis as int) > 0) by {
                lemma_span_positive(shape@, axis as int, flat_idx as int);
            }
            assert(stride > 0 && size > 0) by (nonlinear_arith)
                requires
                    crate::indexing::span(shape@, axis as int) == size * stride,
                    crate::indexing::span(shape@, axis as int) > 0,
                    size >= 0,
                    stride >= 0,
            ;
            vstd::arithmetic::div_mod::lemma_breakdown(flat_idx as int, stride as int, size);
            vstd::arithmetic::div_mod::lemma_mod_mod(flat_idx as int, stride as int, size);
            vstd::arithmetic::div_mod::lemma_mod_pos_bound(flat_idx as int, stride as int);
            vstd::arithmetic::div_mod::lemma_fundamental_div_mod(remainder as int, stride as int);
            vstd::arithmetic::div_mod::lemma_mod_pos_bound(remainder as int, stride as int);
            assert(stride * size == size * stride) by (nonlinear_arith);
        }
        let ghost remainder_before = remainder as int;
        let mut coordinate = remainder / stride;
        let ghost unrolled = coordinate as int;
        remainder = remainder % stride;
        assert(remainder_before == stride * unrolled + remainder);
        proof {
            vstd::arithmetic::div_mod::lemma_fundamental_div_mod_converse(
                flat_idx as int % (stride * size),
                stride as int,
                (flat_idx as int / stride as int) % size,
                flat_idx as int % stride as int,
            );
            vstd::arithmetic::div_mod::lemma_mod_pos_bound(flat_idx as int / stride as int, size);
            assert(unrolled == (flat_idx as int / stride as int) % size);
        }
        if axis == roll_axis && axis_size > 0 {
            let moved: isize = coordinate as isize + shift;
            match moved.checked_rem_euclid(axis_size as isize) {
                Some(r) => {
                    proof {
                        vstd::arithmetic::div_mod::lemma_mod_bound(moved as int, n);
                    }
                    coordinate = r as usize;
                },
                None => {},
            }
        }
        proof {
            assert(coordinate < size);
            crate::indexing::lemma_step_offset(
                coordinate as int,
                size,
                crate::indexing::span(shape@, axis + 1),
            );
            assert(coordinate * stride <= (size - 1) * stride) by (nonlinear_arith)
                requires
                    coordinate < size,
                    stride > 0,
            ;
        }
        let ghost before = output_flat as int;
        output_flat = output_flat + coordinate * stride;
        proof {
            if axis == roll_axis {
                assert(coordinate as int == (unrolled + shift) % n);
                assert(delta == (coordinate - unrolled) * stride) by (nonlinear_arith)
                    requires
                        delta == ((unrolled + shift) % n - unrolled) * sr,
                        coordinate as int == (unrolled + shift) % n,
                        sr == stride,
                ;
                assert(coordinate * stride == unrolled * stride + delta) by (nonlinear_arith)
                    requires
                        delta == (coordinate - unrolled) * stride,
                ;
            } else {
                assert(coordinate == unrolled);
            }
        }
        axis = axis + 1;
    }
    proof {
        assert(shape@.subrange(axis as int, shape@.len() as int) =~= Seq::<usize>::empty());
        vstd::arithmetic::div_mod::lemma_mod_pos_bound(flat_idx as int, 1);
    }
    output_flat
}

/// The entries of a sparse array rolled along `axis` by `shift`: for each
/// entry, the flat index it moves to and its position among the entries.
pub open spec fn rolled_entries_spec(
    shape: Seq<usize>,
    axis: int,
    shift: int,
    active: Seq<usize>,
) -> Seq<(usize, usize)> {
    Seq::new(
        active.len(),
        |p: int|
            (
                rolled_index(
                    active[p] as int,
                    crate::indexing::span(shape, axis + 1) as int,
                    shape[axis] as int,
                    shift,
                ) as usize,
                p as usize,
            ),
    )
}

/// Pairs in increasing order of their first component.
pub open spec fn sorted_by_first(s: Seq<(usize, usize)>) -> bool {
    forall|i: int, j: int| 0 <= i < j < s.len() ==> s[i].0 <= s[j].0
}

/// Rolls the active entries of a sparse array of `shape` along `axis` by
/// `shift`: each entry's new flat index with the position it came from,
/// in increasing order of the new index.
pub fn rolled_entries(
    shape: &[usize],
    axis: usize,
    shift: isize,
    active_indices: &[usize],
) -> (entries: Vec<(usize, usize)>)
    requires
        axis < shape.len(),
        crate::indexing::spans_fit(shape@),
        shape@[axis as int] <= isize::MAX,
        forall|p: int|
            0 <= p < active_indices@.len() ==> #[trigger] active_indices@[p] < crate::indexing::span(
                shape@,
                0,
            ) && coordinate(shape@, active_indices@[p] as int, axis as int) + shift <= isize::MAX,
    ensures
        entries@.len() == active_indices@.len(),
        sorted_by_first(entries@),
        entries@.to_multiset() == rolled_entries_spec(
            shape@,
            axis as int,
            shift as int,
            active_indices@,
        ).to_multiset(),
{
    let strides = crate::indexing::row_major_strides(shape);
    let ghost full = rolled_entries_spec(shape@, axis as int, shift as int, active_indices@);
    let mut entries: Vec<(usize, usize)> = Vec::new();
    let mut k: usize = 0;
    assert(entries@ =~= full.take(0));
    while k < active_indices.len()
        invariant
            k <= active_indices@.len(),
            full == rolled_entries_spec(shape@, axis as int, shift as int, active_indices@),
            full.len() == active_indices@.len(),
            axis < shape@.len(),
            crate::indexing::spans_fit(shape@),
            shape@[axis as int] <= isize::MAX,
            strides@.len() == shape@.len(),
            forall|a: int|
                0 <= a < shape@.len() ==> #[trigger] strides@[a] == crate::indexing::span(
                    shape@,
                    a + 1,
                ),
            forall|p: int|
                0 <= p < active_indices@.len() ==> #[trigger] active_indices@[p]
                    < crate::indexing::span(shape@, 0) && coordinate(
                    shape@,
                    active_indices@[p] as int,
                    axis as int,
                ) + shift <= isize::MAX,
            sorted_by_first(entries@),
            entries@.to_multiset() == full.take(k as int).to_multiset(),
            entries@.len() == k,
        decreases active_indices@.len() - k,
    {
        let target = sparse_rolled_flat_index(
            active_indices[k],
            shape,
            strides.as_slice(),
            axis,
            shift,
        );
        let item = (target, k);
        assert(item == full[k as int]);
        let mut pos: usize = 0;
        while pos < entries.len() && entries[pos].0 <= target
            invariant
                pos <= entries@.len(),
                forall|j: int| 0 <= j < pos ==> (#[trigger] entries@[j]).0 <= target,
            decreases entries@.len() - pos,
        {
            pos = pos + 1;
        }
        let ghost before = entries@;
        entries.insert(pos, item);
        proof {
            assert(entries@ == before.insert(pos as int, item));
            vstd::seq_lib::to_multiset_insert(before, pos as int, item);
            vstd::seq_lib::to_multiset_build(full.take(k as int), item);
            assert(full.take(k + 1) =~= full.take(k as int).push(item));
            assert forall|i: int, j: int| 0 <= i < j < entries@.len() implies entries@[i].0
                <= entries@[j].0 by {
                if j < pos {
                    assert(entries@[i] == before[i] && entries@[j] == before[j]);
                } else if j == pos {
                    assert(entries@[i] == before[i]);
                } else if i == pos {
                    assert(entries@[j] == before[j - 1]);
                    assert(before[pos as int].0 > target);
                } else if i < pos {
                    assert(entries@[i] == before[i] && entries@[j] == before[j - 1]);
                } else {
                    assert(entries@[i] == before[i - 1] && entries@[j] == before[j - 1]);
                }
            }
        }
        k = k + 1;
    }
    assert(full.take(full.len() as int) =~= full);
    entries
}

/// A shift by `shift` along an axis of `axis_size` cells, brought into
/// `0..axis_size`; 0 on an empty axis.
pub fn normalized_shift(shift: isize, axis_size: usize) -> (r: isize)
    requires
        axis_size <= isize::MAX,
    ensures
        axis_size == 0 ==> r == 0,
        axis_size > 0 ==> 0 <= r < axis_size && (r - shift) % (axis_size as int) == 0,
{
    if axis_size == 0 {
        return 0;
    }
    if shift >= 0 {
        let m = (shift as usize) % axis_size;
        proof {
            let q = (shift as int) / (axis_size as int);
            vstd::arithmetic::div_mod::lemma_fundamental_div_mod(shift as int, axis_size as int);
            assert(m - shift == -q * axis_size) by (nonlinear_arith)
                requires
                    shift == axis_size * q + m,
            ;
            vstd::arithmetic::div_mod::lemma_mod_multiples_basic(-q, axis_size as int);
        }
        m as isize
    } else {
        let a = (-(shift + 1)) as usize;
        let m = a % axis_size;
        let r = (axis_size - 1 - m) as isize;
        proof {
            let q = (a as int) / (axis_size as int);
            vstd::arithmetic::div_mod::lemma_fundamental_div_mod(a as int, axis_size as int);
            assert(r - shift == (q + 1) * axis_size) by (nonlinear_arith)
                requires
                    a == axis_size * q + m,
                    shift == -(a + 1),
                    r == axis_size - 1 - m,
            ;
            vstd::arithmetic::div_mod::lemma_mod_multiples_basic(q + 1, axis_size as int);
        }
        r
    }
}

/// In an array with a cell beyond `flat`, every trailing span is positive.
pub(crate) proof fn lemma_span_positive(shape: Seq<usize>, axis: int, flat: int)
    requires
        0 <= axis <= shape.len(),
        0 <= flat < crate::indexing::span(shape, 0),
    ensures
        crate::indexing::span(shape, axis) > 0,
    decreases axis,
{
    if axis > 0 {
        lemma_span_positive(shape, axis - 1, flat);
        crate::indexing::lemma_span_step(shape, axis - 1);
        assert(crate::indexing::span(shape, axis) > 0) by (nonlinear_arith)
            requires
                crate::indexing::span(shape, axis - 1) == shape[axis - 1] * crate::indexing::span(
                    shape,
                    axis,
                ),
                crate::indexing::span(shape, axis - 1) > 0,
        ;
    } else {
        assert(crate::indexing::span(shape, 0) > 0);
    }
}


// ----- reducing over axes -----

/// The axes not summed over, in order.
pub open spec fn kept_positions(summed: Seq<bool>) -> Seq<usize>
    decreases summed.len(),
{
    if summed.len() == 0 {
        Seq::empty()
    } else {
        let kept = kept_positions(summed.drop_last());
        if summed.last() {
            kept
        } else {
            kept.push((summed.len() - 1) as usize)
        }
    }
}

/// The shape left when the summed axes are dropped.
pub open spec fn kept_dims(shape: Seq<usize>, summed: Seq<bool>) -> Seq<usize> {
    kept_positions(summed).map_values(|a: usize| shape[a as int])
}

proof fn lemma_kept_positions_bounded(summed: Seq<bool>)
    requires
        summed.len() <= usize::MAX,
    ensures
        forall|k: int|
            0 <= k < kept_positions(summed).len() ==> #[trigger] kept_positions(summed)[k] < summed.len(),
    decreases summed.len(),
{
    if summed.len() > 0 {
        let prev = kept_positions(summed.drop_last());
        lemma_kept_positions_bounded(summed.drop_last());
        let kept = kept_positions(summed);
        assert forall|k: int| 0 <= k < kept.len() implies #[trigger] kept[k] < summed.len() by {
            if k < prev.len() {
                assert(kept[k] == prev[k]);
            } else {
                assert(kept[k] == (summed.len() - 1) as usize);
            }
        }
    }
}

/// The flat index in the reduced array of the cell that `flat_idx` sums
/// into: its coordinates along the kept axes, read in the row-major shape
/// without the summed axes.
pub fn reduced_sparse_flat_index(
    flat_idx: usize,
    shape: &[usize],
    source_strides: &[usize],
    reduced_strides: &[usize],
    summed_axes: &[bool],
) -> (reduced: usize)
    requires
        summed_axes@.len() == shape@.len(),
        crate::indexing::spans_fit(shape@),
        flat_idx < crate::indexing::span(shape@, 0),
        source_strides@.len() == shape@.len(),
        forall|a: int|
            0 <= a < shape@.len() ==> #[trigger] source_strides@[a] == crate::indexing::span(shape@, a + 1),
        crate::indexing::spans_fit(kept_dims(shape@, summed_axes@)),
        reduced_strides@.len() == kept_dims(shape@, summed_axes@).len(),
        forall|r: int|
            0 <= r < reduced_strides@.len() ==> #[trigger] reduced_strides@[r] == crate::indexing::span(
                kept_dims(shape@, summed_axes@),
                r + 1,
            ),
    ensures
        reduced == crate::einsum::gather_flat(
            flat_idx as int,
            shape@,
            kept_positions(summed_axes@),
            kept_dims(shape@, summed_axes@),
            kept_positions(summed_axes@).len() as int,
        ),
        reduced < crate::indexing::span(kept_dims(shape@, summed_axes@), 0),
{
    let mut positions: Vec<usize> = Vec::new();
    let mut kept: Vec<usize> = Vec::new();
    let mut axis: usize = 0;
    while axis < shape.len()
        invariant
            axis <= shape@.len(),
            summed_axes@.len() == shape@.len(),
            positions@ == kept_positions(summed_axes@.take(axis as int)),
            kept@ == kept_dims(shape@, summed_axes@.take(axis as int)),
        decreases shape@.len() - axis,
    {
        proof {
            assert(summed_axes@.take(axis + 1).drop_last() =~= summed_axes@.take(axis as int));
        }
        if !summed_axes[axis] {
            positions.push(axis);
            kept.push(shape[axis]);
        }
        axis = axis + 1;
        proof {
            assert(kept@ =~= kept_dims(shape@, summed_axes@.take(axis as int)));
        }
    }
    proof {
        assert(summed_axes@.take(axis as int) =~= summed_axes@);
        lemma_kept_positions_bounded(summed_axes@);
    }
    crate::einsum::gather_one(flat_idx, shape, source_strides, positions.as_slice(), kept.as_slice(), reduced_strides)
}


// ----- the active cells of a lazily computed difference -----

fn stream_cells(mapping: &SparseDiffMapping, active_indices: &[usize], positive: bool) -> (cells: Vec<usize>)
    requires
        mapping.wf(),
    ensures
        cells@ == cells_of(mapping.stream_from(active_indices@, 0, positive)),
{
    let mut cells: Vec<usize> = Vec::new();
    let mut pos: usize = 0;
    let ghost full = mapping.stream_from(active_indices@, 0, positive);
    loop
        invariant
            mapping.wf(),
            pos <= active_indices@.len(),
            full == mapping.stream_from(active_indices@, 0, positive),
            cells@ + cells_of(mapping.stream_from(active_indices@, pos as int, positive)) == cells_of(full),
        decreases active_indices@.len() - pos,
    {
        let ghost before = pos;
        match mapping.next(active_indices, &mut pos, positive) {
            Some((cell, source_pos)) => {
                let ghost rest = mapping.stream_from(active_indices@, pos as int, positive);
                proof {
                    assert(cells_of(seq![(cell, source_pos)] + rest) =~= seq![cell] + cells_of(rest));
                }
                cells.push(cell);
                proof {
                    assert(cells@ + cells_of(rest) =~= cells_of(full));
                }
                if pos >= active_indices.len() {
                    proof {
                        assert(mapping.stream_from(active_indices@, pos as int, positive) =~= Seq::<(usize, usize)>::empty());
                        assert(cells@ =~= cells_of(full));
                    }
                    return cells;
                }
            },
            None => {
                proof {
                    assert(cells_of(Seq::<(usize, usize)>::empty()) =~= Seq::<usize>::empty());
                    assert(cells@ =~= cells_of(full));
                }
                return cells;
            },
        }
    }
}

/// The cells a difference along `axis` has entries at: every cell fed by
/// an active index in either direction, each once, in increasing order.
/// `None` when a block of the shape leaves `usize`; none along an empty
/// axis, where the array has no cells.
pub fn diff_active_indices(shape: &[usize], axis: usize, active_indices: &[usize]) -> (cells: Option<Vec<usize>>)
    requires
        axis < shape.len(),
    ensures
        shape@[axis as int] == 0 ==> (cells matches Some(c) && c@.len() == 0),
        shape@[axis as int] > 0 ==> match SparseDiffMapping::of_shape(shape@, axis as int) {
            None => cells is None,
            Some(m) => cells matches Some(c) && c@ == merge_spec(
                cells_of(m.stream_from(active_indices@, 0, false)),
                cells_of(m.stream_from(active_indices@, 0, true)),
            ),
        },
{
    if shape[axis] == 0 {
        return Some(Vec::new());
    }
    let mapping = match SparseDiffMapping::new(shape, axis) {
        Ok(m) => m,
        Err(_) => {
            return None;
        },
    };
    let negative = stream_cells(&mapping, active_indices, false);
    let positive = stream_cells(&mapping, active_indices, true);
    Some(merge_sorted_indices(negative.as_slice(), positive.as_slice()))
}

/// The cells of a difference over strictly increasing active indices are
/// strictly increasing, and a cell is among them exactly when some active
/// index feeds it in one direction or the other.
pub proof fn lemma_diff_active_cells(m: SparseDiffMapping, active: Seq<usize>)
    requires
        m.wf(),
        m.source_stride > 0,
        strictly_sorted(active),
        active.len() <= usize::MAX,
    ensures
        strictly_sorted(
            merge_spec(
                cells_of(m.stream_from(active, 0, false)),
                cells_of(m.stream_from(active, 0, true)),
            ),
        ),
        forall|c: usize|
            merge_spec(
                cells_of(m.stream_from(active, 0, false)),
                cells_of(m.stream_from(active, 0, true)),
            ).contains(c) <==> exists|p: int, positive: bool|
                0 <= p < active.len() && #[trigger] m.target_of(active[p], positive) == Some(c),
{
    lemma_stream_from(m, active, 0, false);
    lemma_stream_from(m, active, 0, true);
    let neg = m.stream_from(active, 0, false);
    let pos = m.stream_from(active, 0, true);
    lemma_merge_is_sorted_union(cells_of(neg), cells_of(pos));
    assert forall|c: usize|
        merge_spec(cells_of(neg), cells_of(pos)).contains(c) implies exists|p: int, positive: bool|
        0 <= p < active.len() && #[trigger] m.target_of(active[p], positive) == Some(c) by {
        if cells_of(neg).contains(c) {
            let k = choose|k: int| 0 <= k < cells_of(neg).len() && cells_of(neg)[k] == c;
            assert(neg[k].0 == c);
            assert(m.target_of(active[neg[k].1 as int], false) == Some(c));
        } else {
            let k = choose|k: int| 0 <= k < cells_of(pos).len() && cells_of(pos)[k] == c;
            assert(pos[k].0 == c);
            assert(m.target_of(active[pos[k].1 as int], true) == Some(c));
        }
    }
    assert forall|c: usize|
        (exists|p: int, positive: bool|
            0 <= p < active.len() && #[trigger] m.target_of(active[p], positive) == Some(c)) implies merge_spec(
        cells_of(neg),
        cells_of(pos),
    ).contains(c) by {
        let (p, positive) = choose|p: int, positive: bool|
            0 <= p < active.len() && #[trigger] m.target_of(active[p], positive) == Some(c);
        if positive {
            let k = choose|k: int| 0 <= k < pos.len() && pos[k] == (c, p as usize);
            assert(cells_of(pos)[k] == c);
            assert(cells_of(pos).contains(c));
        } else {
            let k = choose|k: int| 0 <= k < neg.len() && neg[k] == (c, p as usize);
            assert(cells_of(neg)[k] == c);
            assert(cells_of(neg).contains(c));
        }
    }
}


/// The source entries a cell of a difference is computed from: the earlier
/// neighbour, counted negatively, and the later one, counted positively.
pub open spec fn diff_sources_spec(m: SparseDiffMapping, cell: usize) -> (int, int) {
    let output_block = m.source_stride * (m.axis_size - 1);
    let source = (cell as int / output_block) * m.source_block + cell as int % output_block;
    (source, source + m.source_stride)
}

/// The flat indices of the two source cells that cell `index` of a
/// difference subtracts; `None` when the difference has no cells.
pub fn diff_sources(mapping: &SparseDiffMapping, index: usize) -> (sources: Option<(usize, usize)>)
    requires
        mapping.wf(),
        (index as int / (mapping.source_stride * (mapping.axis_size - 1)) + 1) * mapping.source_block
            <= usize::MAX,
    ensures
        mapping.source_stride * (mapping.axis_size - 1) == 0 ==> sources is None,
        mapping.source_stride * (mapping.axis_size - 1) != 0 ==> (sources matches Some(p) && p.0
            == diff_sources_spec(*mapping, index).0 && p.1 == diff_sources_spec(*mapping, index).1),
{
    proof {
        assert(mapping.source_stride * (mapping.axis_size - 1) <= mapping.source_block) by (
        nonlinear_arith)
            requires
                mapping.source_block == mapping.source_stride * mapping.axis_size,
                mapping.axis_size >= 1,
        ;
    }
    let output_block = mapping.source_stride * (mapping.axis_size - 1);
    if output_block == 0 {
        return None;
    }
    let outer = index / output_block;
    proof {
        vstd::arithmetic::div_mod::lemma_mod_pos_bound(index as int, output_block as int);
        assert(outer * mapping.source_block + index % output_block + mapping.source_stride
            <= (outer + 1) * mapping.source_block) by (nonlinear_arith)
            requires
                index % output_block < output_block,
                output_block == mapping.source_stride * (mapping.axis_size - 1),
                mapping.source_block == mapping.source_stride * mapping.axis_size,
        ;
    }
    let source_index = outer * mapping.source_block + index % output_block;
    Some((source_index, source_index + mapping.source_stride))
}

/// Each cell's sources are the entries that feed it: an active index that
/// feeds a cell negatively is that cell's first source, and one that feeds
/// it positively is its second.
pub proof fn lemma_diff_sources_invert_targets(m: SparseDiffMapping, a: usize, positive: bool)
    requires
        m.wf(),
        m.source_stride > 0,
        m.target_of(a, positive) is Some,
    ensures
        m.source_stride * (m.axis_size - 1) > 0,
        positive ==> diff_sources_spec(m, m.target_of(a, positive)->0).1 == a,
        !positive ==> diff_sources_spec(m, m.target_of(a, positive)->0).0 == a,
{
    lemma_target_digits(m, a, positive);
    let s = m.source_stride as int;
    let n = m.axis_size as int;
    let q = a as int / s;
    let o = q / n;
    let c = q % n;
    let k: int = if positive {
        1
    } else {
        0
    };
    let e = c - k;
    let r = a as int % s;
    let cell = m.target_of(a, positive)->0 as int;
    let ob = s * (n - 1);
    assert(ob > 0 && e * s + r < ob) by (nonlinear_arith)
        requires
            0 <= e < n - 1,
            0 <= r < s,
            ob == s * (n - 1),
    ;
    assert(e * s + r >= 0) by (nonlinear_arith)
        requires
            e >= 0,
            r >= 0,
            s > 0,
    ;
    assert(cell == o * ob + (e * s + r)) by (nonlinear_arith)
        requires
            cell == (o * (n - 1) + e) * s + r,
            ob == s * (n - 1),
    ;
    vstd::arithmetic::div_mod::lemma_fundamental_div_mod_converse(cell, ob, o, e * s + r);
    assert(o * m.source_block + e * s + r + k * s == a) by (nonlinear_arith)
        requires
            m.source_block == s * n,
            a as int == q * s + r,
            q == o * n + c,
            e == c - k,
    ;
}

} // verus!
