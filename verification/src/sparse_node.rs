//! The index side of a lazy sparse expression: the shape, the sorted
//! active flat indices and the nesting depth of each node, without the
//! expressions themselves, which are only produced when a row is asked for.

use vstd::prelude::*;
use crate::sparse::{
    cells_of, check_sparse_source, diff_active_indices, diff_shape, merge_sorted_indices,
    merge_spec, normalized_shift, rolled_entries, rolled_entries_spec, sorted_by_first,
    strictly_sorted, SparseDiffMapping,
};

verus! {

/// The deepest a chain of lazy operations may grow; a further operation
/// is refused, so that the caller materialises the expressions instead.
pub const MAX_SPARSE_EXPR_DEPTH: u8 = 32;

/// The shape, active flat indices and depth of one lazy sparse node.
pub struct SparseIndexNode {
    shape: Vec<usize>,
    active_indices: Vec<usize>,
    depth: u8,
}

impl SparseIndexNode {
    pub closed spec fn shape_view(&self) -> Seq<usize> {
        self.shape@
    }

    pub closed spec fn active_view(&self) -> Seq<usize> {
        self.active_indices@
    }

    pub closed spec fn depth_view(&self) -> u8 {
        self.depth
    }

    /// The shape of the array the node stands for.
    pub fn shape(&self) -> (s: &[usize])
        ensures
            s@ == self.shape_view(),
    {
        self.shape.as_slice()
    }

    /// The flat indices at which the node has an entry.
    pub fn active_indices(&self) -> (a: &[usize])
        ensures
            a@ == self.active_view(),
    {
        self.active_indices.as_slice()
    }

    /// How many operations deep the node is, a leaf being 1.
    pub fn depth(&self) -> (d: u8)
        ensures
            d == self.depth_view(),
    {
        self.depth
    }

    /// A leaf over the active cells of a sparse variable array.
    pub fn variable(shape: Vec<usize>, active_indices: Vec<usize>) -> (n: Self)
        ensures
            n.shape_view() == shape@,
            n.active_view() == active_indices@,
            n.depth_view() == 1,
    {
        SparseIndexNode { shape, active_indices, depth: 1 }
    }

    /// A leaf over explicit entries: refused unless there are as many
    /// values as active indices and the indices strictly increase.
    pub fn values(shape: Vec<usize>, active_indices: Vec<usize>, value_count: usize) -> (n:
        Option<Self>)
        ensures
            n is Some <==> (active_indices@.len() == value_count && strictly_sorted(
                active_indices@,
            )),
            n matches Some(node) ==> node.shape_view() == shape@ && node.active_view()
                == active_indices@ && node.depth_view() == 1,
    {
        match check_sparse_source(active_indices.as_slice(), value_count) {
            Ok(()) => Some(SparseIndexNode { shape, active_indices, depth: 1 }),
            Err(_) => None,
        }
    }

    /// A node scaling this one by a factor: same cells, one level deeper;
    /// refused at the depth limit.
    pub fn scale(&self) -> (n: Option<Self>)
        ensures
            n is None <==> self.depth_view() >= MAX_SPARSE_EXPR_DEPTH,
            n matches Some(node) ==> node.shape_view() == self.shape_view() && node.active_view()
                == self.active_view() && node.depth_view() == self.depth_view() + 1,
    {
        if self.depth >= MAX_SPARSE_EXPR_DEPTH {
            return None;
        }
        Some(
            SparseIndexNode {
                shape: self.shape.clone(),
                active_indices: self.active_indices.clone(),
                depth: self.depth + 1,
            },
        )
    }

    /// The sum of this node and `right`: the cells of either, each once,
    /// one level deeper than the deeper of the two; refused at the depth
    /// limit.
    pub fn add(&self, right: &Self) -> (n: Option<Self>)
        ensures
            n is None <==> (self.depth_view() >= MAX_SPARSE_EXPR_DEPTH || right.depth_view()
                >= MAX_SPARSE_EXPR_DEPTH),
            n matches Some(node) ==> node.shape_view() == self.shape_view() && node.active_view()
                == merge_spec(self.active_view(), right.active_view()) && node.depth_view() == (
            if self.depth_view() >= right.depth_view() {
                self.depth_view()
            } else {
                right.depth_view()
            }) + 1,
    {
        let depth = if self.depth >= right.depth {
            self.depth
        } else {
            right.depth
        };
        if depth >= MAX_SPARSE_EXPR_DEPTH {
            return None;
        }
        let active_indices = merge_sorted_indices(
            self.active_indices.as_slice(),
            right.active_indices.as_slice(),
        );
        Some(SparseIndexNode { shape: self.shape.clone(), active_indices, depth: depth + 1 })
    }

    /// The difference of consecutive cells along `axis`: the axis loses a
    /// cell, and the node has an entry at every cell fed by an active one.
    /// Refused at the depth limit, or where a block of the shape leaves
    /// `usize`.
    pub fn diff(&self, axis: usize) -> (n: Option<Self>)
        requires
            axis < self.shape_view().len(),
        ensures
            n is None <==> (self.depth_view() >= MAX_SPARSE_EXPR_DEPTH || (self.shape_view()[axis as int] > 0
                && SparseDiffMapping::of_shape(self.shape_view(), axis as int) is None)),
            n matches Some(node) ==> {
                &&& node.shape_view() == diff_shape(self.shape_view(), axis as int)
                &&& node.depth_view() == self.depth_view() + 1
                &&& self.shape_view()[axis as int] == 0 ==> node.active_view().len() == 0
                &&& self.shape_view()[axis as int] > 0 ==> (SparseDiffMapping::of_shape(
                    self.shape_view(),
                    axis as int,
                ) matches Some(m) && node.active_view() == merge_spec(
                    cells_of(m.stream_from(self.active_view(), 0, false)),
                    cells_of(m.stream_from(self.active_view(), 0, true)),
                ))
                &&& (self.shape_view()[axis as int] > 0 && strictly_sorted(self.active_view())
                    && (SparseDiffMapping::of_shape(self.shape_view(), axis as int) matches Some(m)
                    && m.source_stride > 0)) ==> strictly_sorted(node.active_view())
            },
    {
        if self.depth >= MAX_SPARSE_EXPR_DEPTH {
            return None;
        }
        let active_indices = match diff_active_indices(
            self.shape.as_slice(),
            axis,
            self.active_indices.as_slice(),
        ) {
            Some(cells) => cells,
            None => {
                return None;
            },
        };
        let active_count = self.active_indices.len();
        proof {
            assert(self.active_indices@.len() == active_count);
            if self.shape@[axis as int] > 0 && strictly_sorted(self.active_indices@) {
                if let Some(m) = SparseDiffMapping::of_shape(self.shape@, axis as int) {
                    if m.source_stride > 0 {
                        crate::sparse::lemma_diff_active_cells(m, self.active_indices@);
                    }
                }
            }
        }
        let mut shape = self.shape.clone();
        let size = shape[axis];
        shape.set(axis, size.saturating_sub(1));
        proof {
            assert(shape@ =~= diff_shape(self.shape@, axis as int));
        }
        Some(SparseIndexNode { shape, active_indices, depth: self.depth + 1 })
    }

    /// The node rolled along `axis` by `shift`, the shift first brought
    /// into the axis: every active cell moves, and the moved cells are
    /// kept in increasing order. Refused at the depth limit.
    pub fn roll(&self, axis: usize, shift: isize) -> (n: Option<Self>)
        requires
            axis < self.shape_view().len(),
            crate::indexing::spans_fit(self.shape_view()),
            self.shape_view()[axis as int] <= isize::MAX,
            forall|p: int|
                0 <= p < self.active_view().len() ==> #[trigger] self.active_view()[p]
                    < crate::indexing::span(self.shape_view(), 0) && crate::sparse::coordinate(
                    self.shape_view(),
                    self.active_view()[p] as int,
                    axis as int,
                ) + (shift as int) % (self.shape_view()[axis as int] as int) <= isize::MAX,
        ensures
            n is None <==> self.depth_view() >= MAX_SPARSE_EXPR_DEPTH,
            n matches Some(node) ==> {
                &&& node.shape_view() == self.shape_view()
                &&& node.depth_view() == self.depth_view() + 1
                &&& exists|entries: Seq<(usize, usize)>|
                    {
                        &&& sorted_by_first(entries)
                        &&& entries.to_multiset() == rolled_entries_spec(
                            self.shape_view(),
                            axis as int,
                            if self.shape_view()[axis as int] == 0 {
                                0
                            } else {
                                (shift as int) % (self.shape_view()[axis as int] as int)
                            },
                            self.active_view(),
                        ).to_multiset()
                        &&& node.active_view() == cells_of(entries)
                    }
            },
    {
        if self.depth >= MAX_SPARSE_EXPR_DEPTH {
            return None;
        }
        let size = self.shape[axis];
        let normalized = normalized_shift(shift, size);
        proof {
            if size > 0 {
                let n = size as int;
                let q = (normalized - shift) / n;
                vstd::arithmetic::div_mod::lemma_fundamental_div_mod(normalized - shift, n);
                assert(shift == (-q) * n + normalized) by (nonlinear_arith)
                    requires
                        normalized - shift == n * q + (normalized - shift) % n,
                        (normalized - shift) % n == 0,
                ;
                vstd::arithmetic::div_mod::lemma_fundamental_div_mod_converse(
                    shift as int,
                    n,
                    -q,
                    normalized as int,
                );
            } else {
                assert(crate::indexing::span(self.shape@, 0) == 0) by {
                    crate::indexing::lemma_span_step(self.shape@, axis as int);
                    lemma_span_zero_from(self.shape@, axis as int);
                }
            }
        }
        assert forall|p: int| 0 <= p < self.active_indices@.len() implies #[trigger] self.active_indices@[p]
            < crate::indexing::span(self.shape@, 0) && crate::sparse::coordinate(
            self.shape@,
            self.active_indices@[p] as int,
            axis as int,
        ) + normalized <= isize::MAX by {
            assert(self.active_view()[p] == self.active_indices@[p]);
        }
        let entries = rolled_entries(
            self.shape.as_slice(),
            axis,
            normalized,
            self.active_indices.as_slice(),
        );
        let mut active_indices: Vec<usize> = Vec::new();
        let mut k: usize = 0;
        while k < entries.len()
            invariant
                k <= entries@.len(),
                active_indices@ == cells_of(entries@.take(k as int)),
            decreases entries@.len() - k,
        {
            active_indices.push(entries[k].0);
            k = k + 1;
            proof {
                assert(cells_of(entries@.take(k as int)) =~= cells_of(entries@.take(k - 1)).push(
                    entries@[k - 1].0,
                ));
            }
        }
        proof {
            assert(entries@.take(entries@.len() as int) =~= entries@);
        }
        Some(SparseIndexNode { shape: self.shape.clone(), active_indices, depth: self.depth + 1 })
    }
}

/// An empty axis leaves no cells before it.
proof fn lemma_span_zero_from(shape: Seq<usize>, axis: int)
    requires
        0 <= axis < shape.len(),
        shape[axis] == 0,
    ensures
        crate::indexing::span(shape, 0) == 0,
    decreases axis,
{
    crate::indexing::lemma_span_step(shape, axis);
    if axis > 0 {
        lemma_span_zero_prefix(shape, axis - 1);
    }
}

proof fn lemma_span_zero_prefix(shape: Seq<usize>, a: int)
    requires
        0 <= a < shape.len() - 1,
        crate::indexing::span(shape, a + 1) == 0,
    ensures
        crate::indexing::span(shape, 0) == 0,
    decreases a,
{
    crate::indexing::lemma_span_step(shape, a);
    assert(crate::indexing::span(shape, a) == 0) by (nonlinear_arith)
        requires
            crate::indexing::span(shape, a) == shape[a] * crate::indexing::span(shape, a + 1),
            crate::indexing::span(shape, a + 1) == 0,
    ;
    if a > 0 {
        lemma_span_zero_prefix(shape, a - 1);
    }
}

} // verus!
