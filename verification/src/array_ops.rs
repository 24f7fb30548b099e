//! Index plans of array operations: which cell of which operand each cell
//! of the result takes, for the diagonal of a matrix and for arrays joined
//! along one axis.

use vstd::prelude::*;
use crate::indexing::{span, spans_fit};

verus! {

/// Why an array operation was refused.
#[derive(Debug, Clone, Copy, PartialEq, Eq, Structural)]
pub enum ArrayOpError {
    /// The diagonal offset leaves the matrix.
    DiagonalOutOfRange,
    /// Joined arrays of different ranks.
    RankMismatch,
    /// Joined arrays that differ along an axis other than the joining one.
    ShapeMismatch,
    /// An axis named twice in one reduction.
    RepeatedAxis,
}

// ----- diagonals -----

/// The first row and column of diagonal `k`: above the main diagonal for
/// positive `k`, below it for negative `k`.
pub open spec fn diagonal_start(k: i64) -> (int, int) {
    if k >= 0 {
        (0, k as int)
    } else {
        (-k, 0)
    }
}

/// The number of cells on diagonal `k` of an `nrows` by `ncols` matrix.
pub open spec fn diagonal_len(nrows: usize, ncols: usize, k: i64) -> int {
    let (r, c) = diagonal_start(k);
    let rows = if nrows > r {
        nrows - r
    } else {
        0
    };
    let cols = if ncols > c {
        ncols - c
    } else {
        0
    };
    if rows < cols {
        rows
    } else {
        cols
    }
}

/// Diagonal `k` of a matrix is made of exactly the cells whose column
/// exceeds their row by `k`, taken by increasing row: the `i`-th cell lies
/// in the matrix with column minus row equal to `k`, and every such cell of
/// the matrix is the `i`-th for `i` its distance from the first.
pub proof fn lemma_diagonal_cells(nrows: usize, ncols: usize, k: i64, r: int, c: int)
    ensures
        diagonal_len(nrows, ncols, k) >= 0,
        forall|i: int|
            0 <= i < diagonal_len(nrows, ncols, k) ==> ({
                let r = #[trigger] (diagonal_start(k).0 + i);
                let c = diagonal_start(k).1 + i;
                &&& 0 <= r < nrows
                &&& 0 <= c < ncols
                &&& c - r == k
            }),
        0 <= r < nrows && 0 <= c < ncols && c - r == k ==> ({
            let i = r - diagonal_start(k).0;
            &&& 0 <= i < diagonal_len(nrows, ncols, k)
            &&& c == diagonal_start(k).1 + i
        }),
{
}

/// The flat row-major indices of the cells on diagonal `k` of an `nrows`
/// by `ncols` matrix, refused when the diagonal holds no cell.
pub fn diagonal_flat_indices(nrows: usize, ncols: usize, k: i64) -> (indices: Result<
    Vec<usize>,
    ArrayOpError,
>)
    requires
        nrows * ncols <= usize::MAX,
        k > i64::MIN,
        k <= usize::MAX,
        -k <= usize::MAX,
    ensures
        match indices {
            Ok(v) => diagonal_len(nrows, ncols, k) > 0 && v@.len() == diagonal_len(nrows, ncols, k)
                && forall|i: int|
                0 <= i < v@.len() ==> #[trigger] v@[i] == (diagonal_start(k).0 + i) * ncols
                    + diagonal_start(k).1 + i,
            Err(e) => e == ArrayOpError::DiagonalOutOfRange && diagonal_len(nrows, ncols, k) == 0,
        },
{
    let (start_row, start_col): (usize, usize) = if k >= 0 {
        (0, k as usize)
    } else {
        ((-k) as usize, 0)
    };
    let max_row = nrows.saturating_sub(start_row);
    let max_col = ncols.saturating_sub(start_col);
    let diag_len = if max_row < max_col {
        max_row
    } else {
        max_col
    };
    if diag_len == 0 {
        return Err(ArrayOpError::DiagonalOutOfRange);
    }
    let mut indices: Vec<usize> = Vec::with_capacity(diag_len);
    let mut i: usize = 0;
    while i < diag_len
        invariant
            i <= diag_len,
            diag_len <= nrows - start_row,
            diag_len <= ncols - start_col,
            start_row <= nrows,
            start_col <= ncols,
            nrows * ncols <= usize::MAX,
            start_row == diagonal_start(k).0,
            start_col == diagonal_start(k).1,
            indices@.len() == i,
            forall|j: int|
                0 <= j < i ==> #[trigger] indices@[j] == (start_row + j) * ncols + start_col + j,
        decreases diag_len - i,
    {
        let row = start_row + i;
        let col = start_col + i;
        proof {
            assert(row * ncols + col < nrows * ncols) by (nonlinear_arith)
                requires
                    row < nrows,
                    col < ncols,
            ;
        }
        indices.push(row * ncols + col);
        i = i + 1;
    }
    Ok(indices)
}

// ----- joining arrays along an axis -----

/// The first check that joining arrays of `shapes` along `axis` fails,
/// against the reference shape `r`: a rank other than its rank, then a
/// size other than its size along another axis, array by array.
pub open spec fn join_error(shapes: Seq<Seq<usize>>, r: Seq<usize>, axis: int) -> Option<ArrayOpError>
    decreases shapes.len(),
{
    if shapes.len() == 0 {
        None
    } else {
        match join_error(shapes.drop_last(), r, axis) {
            Some(e) => Some(e),
            None => {
                let s = shapes.last();
                if s.len() != r.len() {
                    Some(ArrayOpError::RankMismatch)
                } else if exists|d: int| 0 <= d < r.len() && d != axis && #[trigger] s[d] != r[d] {
                    Some(ArrayOpError::ShapeMismatch)
                } else {
                    None
                }
            },
        }
    }
}

/// The cells of the joined array, as (operand, flat index in the operand):
/// for each block of the axes before `axis`, the same block of each operand
/// in turn, each a contiguous run of `lens[a] * after` cells.
pub open spec fn join_sources(lens: Seq<usize>, before: nat, after: nat) -> Seq<(usize, usize)>
    decreases before,
{
    if before == 0 {
        Seq::empty()
    } else {
        join_sources(lens, (before - 1) as nat, after) + join_block(
            lens,
            (before - 1) as nat,
            after,
            lens.len(),
        )
    }
}

/// Block `outer` of the first `count` operands.
pub open spec fn join_block(lens: Seq<usize>, outer: nat, after: nat, count: nat) -> Seq<(usize, usize)>
    decreases count,
{
    if count == 0 {
        Seq::empty()
    } else {
        let a = (count - 1) as int;
        let run = lens[a] * after;
        join_block(lens, outer, after, (count - 1) as nat) + Seq::new(
            run as nat,
            |k: int| (a as usize, (outer * run + k) as usize),
        )
    }
}

/// The plan of a join: the shape of the result and where each of its
/// cells comes from.
#[derive(Debug)]
pub struct JoinPlan {
    pub shape: Vec<usize>,
    pub sources: Vec<(usize, usize)>,
}

fn check_shapes(shapes: &[Vec<usize>], reference: usize, axis: usize) -> (r: Result<(), ArrayOpError>)
    requires
        reference < shapes@.len(),
    ensures
        match join_error(
            shapes@.map_values(|s: Vec<usize>| s@),
            shapes@[reference as int]@,
            axis as int,
        ) {
            Some(e) => r == Err::<(), ArrayOpError>(e),
            None => r is Ok,
        },
{
    let ghost all = shapes@.map_values(|s: Vec<usize>| s@);
    let rank = shapes[reference].len();
    let mut a: usize = 0;
    while a < shapes.len()
        invariant
            a <= shapes@.len(),
            reference < shapes@.len(),
            all == shapes@.map_values(|s: Vec<usize>| s@),
            rank == shapes@[reference as int]@.len(),
            join_error(all.take(a as int), shapes@[reference as int]@, axis as int) is None,
        decreases shapes@.len() - a,
    {
        proof {
            assert(all.take(a + 1).drop_last() =~= all.take(a as int));
            assert(all.take(a + 1).last() == shapes@[a as int]@);
        }
        let shape = &shapes[a];
        if shape.len() != rank {
            proof {
                lemma_join_error_stays(all, shapes@[reference as int]@, axis as int, a + 1);
            }
            return Err(ArrayOpError::RankMismatch);
        }
        let mut d: usize = 0;
        while d < rank
            invariant
                d <= rank,
                a < shapes@.len(),
                all == shapes@.map_values(|s: Vec<usize>| s@),
                join_error(all.take(a as int), shapes@[reference as int]@, axis as int) is None,
                reference < shapes@.len(),
                shapes@[a as int]@.len() == rank,
                shapes@[reference as int]@.len() == rank,
                forall|e: int|
                    0 <= e < d && e != axis ==> #[trigger] shapes@[a as int]@[e] == shapes@[reference as int]@[e],
            decreases rank - d,
        {
            if d != axis && shapes[a][d] != shapes[reference][d] {
                proof {
                    assert(all.take(a + 1).drop_last() =~= all.take(a as int));
                    assert(all.take(a + 1).last() == shapes@[a as int]@);
                    assert(shapes@[a as int]@[d as int] != shapes@[reference as int]@[d as int]);
                    lemma_join_error_stays(all, shapes@[reference as int]@, axis as int, a + 1);
                }
                return Err(ArrayOpError::ShapeMismatch);
            }
            d = d + 1;
        }
        a = a + 1;
    }
    proof {
        assert(all.take(a as int) =~= all);
    }
    Ok(())
}

proof fn lemma_join_error_stays(shapes: Seq<Seq<usize>>, r: Seq<usize>, axis: int, k: int)
    requires
        0 < k <= shapes.len(),
        join_error(shapes.take(k), r, axis) is Some,
    ensures
        join_error(shapes, r, axis) == join_error(shapes.take(k), r, axis),
    decreases shapes.len() - k,
{
    if k < shapes.len() {
        assert(shapes.take(k + 1).drop_last() =~= shapes.take(k));
        lemma_join_error_stays(shapes, r, axis, k + 1);
    } else {
        assert(shapes.take(k) =~= shapes);
    }
}


/// The total size of the joined axis.
pub open spec fn lens_total(lens: Seq<usize>) -> nat
    decreases lens.len(),
{
    if lens.len() == 0 {
        0
    } else {
        lens_total(lens.drop_last()) + lens.last() as nat
    }
}

/// The sizes of the operands along the joined axis.
pub open spec fn axis_lens(shapes: Seq<Seq<usize>>, axis: int) -> Seq<usize> {
    shapes.map_values(|s: Seq<usize>| s[axis])
}

/// Joins arrays of `shapes` along `axis`, matching them against operand
/// `reference`: the shape of the result and, for each of its cells in
/// row-major order, the operand and the flat index it is taken from.
pub fn join_plan(shapes: &[Vec<usize>], reference: usize, axis: usize) -> (plan: Result<
    JoinPlan,
    ArrayOpError,
>)
    requires
        reference < shapes@.len(),
        axis < shapes@[reference as int]@.len(),
        crate::sparse::checked_product_of(shapes@[reference as int]@.take(axis as int)) is Some,
        spans_fit(shapes@[reference as int]@),
        lens_total(axis_lens(shapes@.map_values(|s: Vec<usize>| s@), axis as int)) <= usize::MAX,
        forall|a: int|
            0 <= a < shapes@.len() ==> crate::sparse::checked_product_of(
                shapes@[reference as int]@.take(axis as int),
            )->0 * shapes@[a]@[axis as int] * span(shapes@[reference as int]@, axis + 1)
                <= usize::MAX,
    ensures
        match join_error(shapes@.map_values(|s: Vec<usize>| s@), shapes@[reference as int]@, axis as int) {
            Some(e) => plan matches Err(x) && x == e,
            None => plan matches Ok(p) && p.shape@ == shapes@[reference as int]@.update(
                axis as int,
                lens_total(axis_lens(shapes@.map_values(|s: Vec<usize>| s@), axis as int)) as usize,
            ) && p.sources@ == join_sources(
                axis_lens(shapes@.map_values(|s: Vec<usize>| s@), axis as int),
                crate::sparse::checked_product_of(shapes@[reference as int]@.take(axis as int))->0,
                span(shapes@[reference as int]@, axis + 1),
            ),
        },
{
    check_shapes(shapes, reference, axis)?;
    let ghost all = shapes@.map_values(|s: Vec<usize>| s@);
    let ghost lens = axis_lens(all, axis as int);
    let ghost r = shapes@[reference as int]@;
    let ghost before_spec = crate::sparse::checked_product_of(r.take(axis as int))->0;
    proof {
        lemma_join_ok_ranks(all, r, axis as int);
    }
    // the cells before the axis
    let mut before: usize = 1;
    let mut d: usize = 0;
    proof {
        assert(r.take(0) =~= Seq::<usize>::empty());
    }
    while d < axis
        invariant
            d <= axis < r.len(),
            reference < shapes@.len(),
            r == shapes@[reference as int]@,
            crate::sparse::checked_product_of(r.take(axis as int)) is Some,
            crate::sparse::checked_product_of(r.take(d as int)) == Some(before as nat),
        decreases axis - d,
    {
        proof {
            assert(r.take(d + 1).drop_last() =~= r.take(d as int));
            lemma_checked_product_prefix(r, d + 1, axis as int);
        }
        before = before * shapes[reference][d];
        d = d + 1;
    }
    // the cells after the axis
    let strides = crate::indexing::row_major_strides(shapes[reference].as_slice());
    let after = strides[axis];
    // the lengths along the axis and their total
    let mut lens_vec: Vec<usize> = Vec::new();
    let mut axis_total: usize = 0;
    let mut a: usize = 0;
    while a < shapes.len()
        invariant
            a <= shapes@.len(),
            all == shapes@.map_values(|s: Vec<usize>| s@),
            lens == axis_lens(all, axis as int),
            forall|b: int| 0 <= b < all.len() ==> axis < #[trigger] all[b].len(),
            lens_total(lens) <= usize::MAX,
            lens_vec@ == lens.take(a as int),
            axis_total == lens_total(lens.take(a as int)),
        decreases shapes@.len() - a,
    {
        proof {
            assert(lens.take(a + 1).drop_last() =~= lens.take(a as int));
            lemma_lens_total_prefix(lens, a + 1);
            assert(all[a as int] == shapes@[a as int]@);
        }
        let len = shapes[a][axis];
        lens_vec.push(len);
        axis_total = axis_total + len;
        a = a + 1;
        proof {
            assert(lens_vec@ =~= lens.take(a as int));
        }
    }
    proof {
        assert(lens.take(a as int) =~= lens);
        assert(lens_vec@ =~= lens);
    }
    // where each cell comes from
    let mut sources: Vec<(usize, usize)> = Vec::new();
    let mut outer: usize = 0;
    while outer < before
        invariant
            outer <= before,
            before == before_spec,
            lens_vec@ == lens,
            lens.len() == shapes@.len(),
            after == span(r, axis + 1),
            forall|b: int| 0 <= b < shapes@.len() ==> before_spec * #[trigger] lens[b] * after <= usize::MAX,
            sources@ == join_sources(lens, outer as nat, after as nat),
        decreases before - outer,
    {
        let ghost prefix = sources@;
        let mut b: usize = 0;
        while b < lens_vec.len()
            invariant
                outer < before,
                before == before_spec,
                b <= lens_vec@.len(),
                lens_vec@ == lens,
                forall|c: int| 0 <= c < lens.len() ==> before_spec * #[trigger] lens[c] * after <= usize::MAX,
                sources@ == prefix + join_block(lens, outer as nat, after as nat, b as nat),
            decreases lens_vec@.len() - b,
        {
            let len = lens_vec[b];
            proof {
                assert(before_spec * lens[b as int] * after <= usize::MAX);
                assert((outer + 1) * (len * after) <= before * len * after) by (nonlinear_arith)
                    requires
                        outer < before,
                ;
                assert(len * after <= usize::MAX) by (nonlinear_arith)
                    requires
                        before * len * after <= usize::MAX,
                        outer < before,
                ;
            }
            let run = len * after;
            proof {
                assert(outer * run + run <= usize::MAX) by (nonlinear_arith)
                    requires
                        run == len * after,
                        (outer + 1) * (len * after) <= before * len * after,
                        before * len * after <= usize::MAX,
                ;
            }
            let base = outer * run;
            let ghost block_start = sources@;
            let mut k: usize = 0;
            while k < run
                invariant
                    k <= run,
                    run == len * after,
                    base == outer * run,
                    base + run <= usize::MAX,
                    sources@ == block_start + Seq::new(
                        k as nat,
                        |j: int| (b as usize, (outer * run + j) as usize),
                    ),
                decreases run - k,
            {
                sources.push((b, base + k));
                k = k + 1;
                proof {
                    assert(sources@ =~= block_start + Seq::new(
                        k as nat,
                        |j: int| (b as usize, (outer * run + j) as usize),
                    ));
                }
            }
            b = b + 1;
            proof {
                assert(sources@ =~= prefix + join_block(lens, outer as nat, after as nat, b as nat));
            }
        }
        outer = outer + 1;
        proof {
            assert(lens.len() == lens_vec@.len());
            assert(sources@ =~= join_sources(lens, outer as nat, after as nat));
        }
    }
    let mut shape = crate::dense_mapping::copy_indices(shapes[reference].as_slice());
    shape.set(axis, axis_total);
    Ok(JoinPlan { shape, sources })
}

proof fn lemma_join_ok_ranks(shapes: Seq<Seq<usize>>, r: Seq<usize>, axis: int)
    requires
        join_error(shapes, r, axis) is None,
    ensures
        forall|b: int| 0 <= b < shapes.len() ==> #[trigger] shapes[b].len() == r.len(),
    decreases shapes.len(),
{
    if shapes.len() > 0 {
        lemma_join_ok_ranks(shapes.drop_last(), r, axis);
        assert forall|b: int| 0 <= b < shapes.len() implies #[trigger] shapes[b].len() == r.len() by {
            if b < shapes.len() - 1 {
                assert(shapes.drop_last()[b] == shapes[b]);
            }
        }
    }
}

proof fn lemma_checked_product_prefix(dims: Seq<usize>, k: int, n: int)
    requires
        0 <= k <= n <= dims.len(),
        crate::sparse::checked_product_of(dims.take(n)) is Some,
    ensures
        crate::sparse::checked_product_of(dims.take(k)) is Some,
    decreases n - k,
{
    if k < n {
        assert(dims.take(k + 1).drop_last() =~= dims.take(k));
        lemma_checked_product_prefix(dims, k + 1, n);
    }
}

proof fn lemma_lens_total_prefix(lens: Seq<usize>, k: int)
    requires
        0 <= k <= lens.len(),
    ensures
        lens_total(lens.take(k)) <= lens_total(lens),
    decreases lens.len() - k,
{
    if k < lens.len() {
        assert(lens.take(k + 1).drop_last() =~= lens.take(k));
        lemma_lens_total_prefix(lens, k + 1);
    } else {
        assert(lens.take(k) =~= lens);
    }
}


// ----- dense operations along one axis -----

/// A row-major shape seen as `outer` blocks of `n` steps along the axis of
/// `inner` cells each.
pub open spec fn axis_split_spec(shape: Seq<usize>, axis: int) -> (nat, nat, nat) {
    (
        crate::sparse::checked_product_of(shape.take(axis))->0,
        shape[axis] as nat,
        span(shape, axis + 1),
    )
}

/// The blocks before an axis, its size, and the cells after it.
pub fn axis_split(shape: &[usize], axis: usize) -> (split: (usize, usize, usize))
    requires
        axis < shape@.len(),
        crate::sparse::checked_product_of(shape@.take(axis as int)) is Some,
        spans_fit(shape@),
    ensures
        split.0 == axis_split_spec(shape@, axis as int).0,
        split.1 == axis_split_spec(shape@, axis as int).1,
        split.2 == axis_split_spec(shape@, axis as int).2,
{
    let mut outer: usize = 1;
    let mut d: usize = 0;
    proof {
        assert(shape@.take(0) =~= Seq::<usize>::empty());
    }
    while d < axis
        invariant
            d <= axis < shape@.len(),
            crate::sparse::checked_product_of(shape@.take(axis as int)) is Some,
            crate::sparse::checked_product_of(shape@.take(d as int)) == Some(outer as nat),
        decreases axis - d,
    {
        proof {
            assert(shape@.take(d + 1).drop_last() =~= shape@.take(d as int));
            lemma_checked_product_prefix(shape@, d + 1, axis as int);
        }
        outer = outer * shape[d];
        d = d + 1;
    }
    let strides = crate::indexing::row_major_strides(shape);
    (outer, shape[axis], strides[axis])
}

/// The cells of an array of `outer * n * inner` cells, and every partial
/// product of these three, fit in `usize`.
pub open spec fn split_fits(outer: usize, n: usize, inner: usize) -> bool {
    &&& outer * n <= usize::MAX
    &&& n * inner <= usize::MAX
    &&& outer * inner <= usize::MAX
    &&& outer * n * inner <= usize::MAX
}

proof fn lemma_split_position(q: int, outer: int, n: int, inner: int)
    requires
        0 <= q < outer * n * inner,
        outer >= 0,
        n >= 0,
        inner >= 0,
    ensures
        n > 0,
        inner > 0,
        n * inner > 0,
        q / (n * inner) < outer,
        0 <= q % inner < inner,
        (q / (n * inner)) * inner + q % inner < outer * inner,
{
    assert(n > 0 && inner > 0) by (nonlinear_arith)
        requires
            0 <= q < outer * n * inner,
            outer >= 0,
            n >= 0,
            inner >= 0,
    ;
    assert(n * inner > 0) by (nonlinear_arith)
        requires
            n > 0,
            inner > 0,
    ;
    vstd::arithmetic::div_mod::lemma_mod_pos_bound(q, inner);
    assert(q / (n * inner) < outer) by (nonlinear_arith)
        requires
            0 <= q < outer * n * inner,
            n * inner > 0,
    {
        vstd::arithmetic::div_mod::lemma_fundamental_div_mod(q, n * inner);
        vstd::arithmetic::div_mod::lemma_mod_pos_bound(q, n * inner);
    }
    assert((q / (n * inner)) * inner + q % inner < outer * inner) by (nonlinear_arith)
        requires
            q / (n * inner) < outer,
            q / (n * inner) >= 0,
            0 <= q % inner < inner,
    ;
}

/// Summing over an axis: for every cell `q` of the array, in order, the
/// cell of the sum it adds to, which drops its coordinate along the axis.
pub fn sum_plan(outer: usize, n: usize, inner: usize) -> (plan: Vec<(usize, usize)>)
    requires
        split_fits(outer, n, inner),
    ensures
        plan@.len() == outer * n * inner,
        forall|q: int|
            0 <= q < plan@.len() ==> #[trigger] plan@[q] == (
                q as usize,
                ((q / (n * inner) as int) * inner + q % inner as int) as usize,
            ),
        forall|q: int| 0 <= q < plan@.len() ==> (#[trigger] plan@[q]).1 < outer * inner,
{
    let total = outer * n * inner;
    let mut plan: Vec<(usize, usize)> = Vec::new();
    let mut q: usize = 0;
    while q < total
        invariant
            q <= total,
            total == outer * n * inner,
            split_fits(outer, n, inner),
            plan@.len() == q,
            forall|r: int|
                0 <= r < q ==> #[trigger] plan@[r] == (
                    r as usize,
                    ((r / (n * inner) as int) * inner + r % inner as int) as usize,
                ),
            forall|r: int| 0 <= r < q ==> (#[trigger] plan@[r]).1 < outer * inner,
        decreases total - q,
    {
        proof {
            lemma_split_position(q as int, outer as int, n as int, inner as int);
            assert((q as int / (n * inner)) * inner <= outer * inner) by (nonlinear_arith)
                requires
                    q as int / (n * inner) < outer,
                    inner > 0,
            ;
        }
        let block = n * inner;
        plan.push((q, (q / block) * inner + q % inner));
        q = q + 1;
    }
    plan
}

/// Running sums along an axis: the cells in the order they are summed,
/// the axis varying fastest, so that each run of `n` consecutive entries
/// is one line along the axis.
pub fn cumsum_order(outer: usize, n: usize, inner: usize) -> (order: Vec<usize>)
    requires
        split_fits(outer, n, inner),
    ensures
        order@.len() == outer * n * inner,
        forall|p: int|
            0 <= p < order@.len() ==> #[trigger] order@[p] == ((p / n as int) / inner as int) * n * inner
                + (p % n as int) * inner + (p / n as int) % inner as int,
{
    let total = outer * n * inner;
    let mut order: Vec<usize> = Vec::new();
    let mut p: usize = 0;
    while p < total
        invariant
            p <= total,
            total == outer * n * inner,
            split_fits(outer, n, inner),
            order@.len() == p,
            forall|r: int|
                0 <= r < p ==> #[trigger] order@[r] == ((r / n as int) / inner as int) * n * inner + (r
                    % n as int) * inner + (r / n as int) % inner as int,
        decreases total - p,
    {
        proof {
            lemma_split_position(p as int, outer as int, n as int, inner as int);
            lemma_cumsum_index(p as int, outer as int, n as int, inner as int);
        }
        let line = p / n;
        proof {
            lemma_cumsum_bounds(p as int, outer as int, n as int, inner as int);
        }
        order.push((line / inner) * n * inner + (p % n) * inner + line % inner);
        p = p + 1;
    }
    order
}

proof fn lemma_cumsum_bounds(p: int, outer: int, n: int, inner: int)
    requires
        0 <= p < outer * n * inner,
        n > 0,
        inner > 0,
    ensures
        ((p / n) / inner) * n <= outer * n,
        ((p / n) / inner) * n * inner <= outer * n * inner,
        (p % n) * inner <= n * inner,
{
    lemma_cumsum_index(p, outer, n, inner);
    vstd::arithmetic::div_mod::lemma_div_denominator(p, n, inner);
    vstd::arithmetic::div_mod::lemma_mod_pos_bound(p, n);
    assert(p / n >= 0) by (nonlinear_arith)
        requires
            p >= 0,
            n > 0,
    ;
    assert((p / n) / inner < outer) by (nonlinear_arith)
        requires
            0 <= p < outer * n * inner,
            (p / n) / inner == p / (n * inner),
            n > 0,
            inner > 0,
    {
        vstd::arithmetic::div_mod::lemma_fundamental_div_mod(p, n * inner);
        vstd::arithmetic::div_mod::lemma_mod_pos_bound(p, n * inner);
    }
    assert((p / n) / inner >= 0) by (nonlinear_arith)
        requires
            p / n >= 0,
            inner > 0,
    ;
    assert(((p / n) / inner) * n <= outer * n && ((p / n) / inner) * n * inner <= outer * n * inner
        && (p % n) * inner <= n * inner) by (nonlinear_arith)
        requires
            0 <= (p / n) / inner < outer,
            0 <= p % n < n,
            n > 0,
            inner > 0,
    ;
}

proof fn lemma_cumsum_index(p: int, outer: int, n: int, inner: int)
    requires
        0 <= p < outer * n * inner,
        n > 0,
        inner > 0,
    ensures
        ((p / n) / inner) * n * inner + (p % n) * inner + (p / n) % inner < outer * n * inner,
{
    vstd::arithmetic::div_mod::lemma_div_denominator(p, n, inner);
    vstd::arithmetic::div_mod::lemma_mod_pos_bound(p, n);
    vstd::arithmetic::div_mod::lemma_mod_pos_bound(p / n, inner);
    assert(p / n >= 0) by (nonlinear_arith)
        requires
            p >= 0,
            n > 0,
    ;
    assert((p / n) / inner < outer) by (nonlinear_arith)
        requires
            0 <= p < outer * n * inner,
            (p / n) / inner == p / (n * inner),
            n > 0,
            inner > 0,
    {
        vstd::arithmetic::div_mod::lemma_fundamental_div_mod(p, n * inner);
        vstd::arithmetic::div_mod::lemma_mod_pos_bound(p, n * inner);
    }
    assert(((p / n) / inner) * n * inner + (p % n) * inner + (p / n) % inner < outer * n * inner) by (
    nonlinear_arith)
        requires
            0 <= (p / n) / inner < outer,
            0 <= p % n < n,
            0 <= (p / n) % inner < inner,
    ;
}

/// Differences along an axis: for every cell `p` of the difference, the
/// cell of the source counted positively and the one before it along the
/// axis, counted negatively.
pub fn diff_plan(outer: usize, n: usize, inner: usize) -> (plan: Vec<(usize, usize)>)
    requires
        n >= 1,
        split_fits(outer, n, inner),
    ensures
        plan@.len() == outer * (n - 1) * inner,
        forall|p: int|
            0 <= p < plan@.len() ==> #[trigger] plan@[p] == (
                (p + (p / ((n - 1) * inner) as int + 1) * inner) as usize,
                (p + (p / ((n - 1) * inner) as int) * inner) as usize,
            ),
{
    proof {
        assert(outer * (n - 1) * inner <= outer * n * inner && outer * (n - 1) <= outer * n) by (
        nonlinear_arith)
            requires
                n >= 1,
        ;
    }
    let total = outer * (n - 1) * inner;
    let mut plan: Vec<(usize, usize)> = Vec::new();
    let mut p: usize = 0;
    while p < total
        invariant
            n >= 1,
            p <= total,
            total == outer * (n - 1) * inner,
            split_fits(outer, n, inner),
            plan@.len() == p,
            forall|r: int|
                0 <= r < p ==> #[trigger] plan@[r] == (
                    (r + (r / ((n - 1) * inner) as int + 1) * inner) as usize,
                    (r + (r / ((n - 1) * inner) as int) * inner) as usize,
                ),
        decreases total - p,
    {
        proof {
            lemma_split_position(p as int, outer as int, (n - 1) as int, inner as int);
            assert(p + (p as int / ((n - 1) * inner) + 1) * inner < outer * n * inner) by (nonlinear_arith)
                requires
                    0 <= p < outer * (n - 1) * inner,
                    p as int / ((n - 1) * inner) < outer,
                    p as int / ((n - 1) * inner) >= 0,
                    (n - 1) * inner > 0,
            {
                vstd::arithmetic::div_mod::lemma_fundamental_div_mod(p as int, (n - 1) * inner);
                vstd::arithmetic::div_mod::lemma_mod_pos_bound(p as int, (n - 1) * inner);
            }
        }
        proof {
            assert((n - 1) * inner <= n * inner) by (nonlinear_arith)
                requires
                    n >= 1,
            ;
            assert((p as int / ((n - 1) * inner)) * inner <= outer * inner) by (nonlinear_arith)
                requires
                    p as int / ((n - 1) * inner) < outer,
                    inner > 0,
            ;
        }
        let block = p / ((n - 1) * inner);
        proof {
            assert(p + block * inner + inner < outer * n * inner) by (nonlinear_arith)
                requires
                    p + (block + 1) * inner < outer * n * inner,
            ;
            assert(p + block * inner + inner == p + (block + 1) * inner) by (nonlinear_arith);
        }
        let previous = p + block * inner;
        plan.push((previous + inner, previous));
        p = p + 1;
    }
    plan
}

/// Rolling along an axis: for every cell `q` of the array, in order, the
/// cell it moves to.
pub fn roll_plan(outer: usize, n: usize, inner: usize, shift: isize) -> (plan: Vec<usize>)
    requires
        split_fits(outer, n, inner),
        n <= isize::MAX,
    ensures
        plan@.len() == outer * n * inner,
        forall|q: int|
            0 <= q < plan@.len() ==> #[trigger] plan@[q] == crate::sparse::rolled_index(
                q,
                inner as int,
                n as int,
                shift as int,
            ),
{
    let total = outer * n * inner;
    let mut plan: Vec<usize> = Vec::new();
    if total == 0 {
        return plan;
    }
    proof {
        lemma_split_position(0, outer as int, n as int, inner as int);
    }
    let normalized: usize = match shift.checked_rem_euclid(n as isize) {
        Some(r) => r as usize,
        None => 0,
    };
    proof {
        vstd::arithmetic::div_mod::lemma_mod_bound(shift as int, n as int);
    }
    let mut q: usize = 0;
    while q < total
        invariant
            q <= total,
            total == outer * n * inner,
            n > 0,
            inner > 0,
            n <= isize::MAX,
            split_fits(outer, n, inner),
            normalized == (shift as int) % (n as int),
            plan@.len() == q,
            forall|r: int|
                0 <= r < q ==> #[trigger] plan@[r] == crate::sparse::rolled_index(
                    r,
                    inner as int,
                    n as int,
                    shift as int,
                ),
        decreases total - q,
    {
        let a = (q / inner) % n;
        let shifted = (a + normalized) % n;
        proof {
            vstd::arithmetic::div_mod::lemma_mod_pos_bound((q / inner) as int, n as int);
            vstd::arithmetic::div_mod::lemma_add_mod_noop(a as int, shift as int, n as int);
            vstd::arithmetic::div_mod::lemma_mod_mod(shift as int, n as int, 1);
            assert(shifted as int == (a as int + shift as int) % (n as int)) by {
                vstd::arithmetic::div_mod::lemma_add_mod_noop(a as int, normalized as int, n as int);
                vstd::arithmetic::div_mod::lemma_mod_twice(shift as int, n as int);
            }
            vstd::arithmetic::div_mod::lemma_mod_pos_bound((a + normalized) as int, n as int);
            lemma_roll_in_range(q as int, outer as int, n as int, inner as int, a as int, shifted as int);
            assert(shifted * inner <= n * inner) by (nonlinear_arith)
                requires
                    shifted < n,
                    inner > 0,
            ;
        }
        proof {
            assert(q - a * inner + shifted * inner == q + (shifted - a) * inner) by (nonlinear_arith);
        }
        plan.push(q - a * inner + shifted * inner);
        q = q + 1;
    }
    plan
}

proof fn lemma_roll_in_range(q: int, outer: int, n: int, inner: int, a: int, shifted: int)
    requires
        0 <= q < outer * n * inner,
        n > 0,
        inner > 0,
        a == (q / inner) % n,
        0 <= shifted < n,
    ensures
        a * inner <= q,
        q - a * inner + shifted * inner < outer * n * inner,
{
    vstd::arithmetic::div_mod::lemma_fundamental_div_mod(q, inner);
    vstd::arithmetic::div_mod::lemma_mod_pos_bound(q, inner);
    let l = q / inner;
    assert(l >= 0) by (nonlinear_arith)
        requires
            q >= 0,
            inner > 0,
            l == q / inner,
    ;
    vstd::arithmetic::div_mod::lemma_fundamental_div_mod(l, n);
    vstd::arithmetic::div_mod::lemma_mod_pos_bound(l, n);
    vstd::arithmetic::div_mod::lemma_div_denominator(q, inner, n);
    let o = l / n;
    assert(o < outer) by (nonlinear_arith)
        requires
            0 <= q < outer * n * inner,
            o == q / (inner * n),
            n > 0,
            inner > 0,
    {
        vstd::arithmetic::div_mod::lemma_fundamental_div_mod(q, inner * n);
        vstd::arithmetic::div_mod::lemma_mod_pos_bound(q, inner * n);
    }
    assert(o >= 0) by (nonlinear_arith)
        requires
            l >= 0,
            n > 0,
            o == l / n,
    ;
    assert(a * inner <= q && q - a * inner + shifted * inner < outer * n * inner) by (nonlinear_arith)
        requires
            q == inner * l + q % inner,
            l == n * o + a,
            0 <= q % inner < inner,
            0 <= a < n,
            0 <= shifted < n,
            0 <= o < outer,
    ;
}


// ----- axes of a reduction -----

/// Some axis occurs twice in `axes`.
pub open spec fn has_repeat(axes: Seq<usize>) -> bool {
    exists|i: int, j: int| 0 <= i < j < axes.len() && axes[i] == axes[j]
}

/// The axes a reduction runs over, as they were selected; refused when one
/// of them is named twice.
pub fn distinct_axes(axes: Vec<usize>) -> (r: Result<Vec<usize>, ArrayOpError>)
    ensures
        r is Err <==> has_repeat(axes@),
        r matches Ok(v) ==> v@ == axes@,
        r matches Err(e) ==> e == ArrayOpError::RepeatedAxis,
{
    let mut j: usize = 0;
    while j < axes.len()
        invariant
            j <= axes@.len(),
            forall|a: int, b: int| 0 <= a < b < j ==> axes@[a] != axes@[b],
        decreases axes@.len() - j,
    {
        let mut i: usize = 0;
        while i < j
            invariant
                i <= j < axes@.len(),
                forall|a: int| 0 <= a < i ==> axes@[a] != axes@[j as int],
            decreases j - i,
        {
            if axes[i] == axes[j] {
                return Err(ArrayOpError::RepeatedAxis);
            }
            i = i + 1;
        }
        j = j + 1;
    }
    Ok(axes)
}

/// `axes` from the largest down.
pub open spec fn descending(axes: Seq<usize>) -> bool {
    forall|i: int, j: int| 0 <= i < j < axes.len() ==> axes[i] >= axes[j]
}

/// The order in which axes are summed away: from the last axis to the
/// first, so that removing one leaves the positions of the others intact.
pub fn summation_order(axes: &[usize]) -> (order: Vec<usize>)
    ensures
        descending(order@),
        order@.to_multiset() == axes@.to_multiset(),
        order@.len() == axes@.len(),
{
    let mut order: Vec<usize> = Vec::new();
    let mut k: usize = 0;
    assert(order@ =~= axes@.take(0));
    while k < axes.len()
        invariant
            k <= axes@.len(),
            descending(order@),
            order@.to_multiset() == axes@.take(k as int).to_multiset(),
            order@.len() == k,
        decreases axes@.len() - k,
    {
        let item = axes[k];
        let mut pos: usize = 0;
        while pos < order.len() && order[pos] >= item
            invariant
                pos <= order@.len(),
                forall|j: int| 0 <= j < pos ==> #[trigger] order@[j] >= item,
            decreases order@.len() - pos,
        {
            pos = pos + 1;
        }
        let ghost before = order@;
        order.insert(pos, item);
        proof {
            assert(order@ == before.insert(pos as int, item));
            vstd::seq_lib::to_multiset_insert(before, pos as int, item);
            vstd::seq_lib::to_multiset_build(axes@.take(k as int), item);
            assert(axes@.take(k + 1) =~= axes@.take(k as int).push(item));
            assert forall|i: int, j: int| 0 <= i < j < order@.len() implies order@[i] >= order@[j] by {
                if j < pos {
                    assert(order@[i] == before[i] && order@[j] == before[j]);
                } else if j == pos {
                    assert(order@[i] == before[i]);
                } else if i == pos {
                    assert(order@[j] == before[j - 1]);
                    assert(before[pos as int] < item);
                } else if i < pos {
                    assert(order@[i] == before[i] && order@[j] == before[j - 1]);
                } else {
                    assert(order@[i] == before[i - 1] && order@[j] == before[j - 1]);
                }
            }
        }
        k = k + 1;
    }
    assert(axes@.take(axes@.len() as int) =~= axes@);
    order
}

} // verus!
