//! Resolution of array subscripts: integers counted from either end, slice
//! positions, boolean masks, and the flat row-major offsets that a
//! selection along every axis picks out.

use vstd::prelude::*;

verus! {

/// Why a subscript was refused.
#[derive(Debug, Clone, Copy, PartialEq, Eq, Structural)]
pub enum IndexingError {
    /// An integer subscript lies outside its dimension.
    OutOfRange { index: isize, dim_size: usize },
    /// A boolean mask has another length than the array.
    MaskLengthMismatch { mask_len: usize, expected_len: usize },
    /// More subscripts than the array has axes.
    TooManySubscripts { given: usize, rank: usize },
}

/// What one subscript selects along its axis: one position, which drops
/// the axis, or a list of positions, which keeps it.
#[derive(Debug)]
pub enum AxisIndex {
    Single(usize),
    Range(Vec<usize>),
}

// ----- integer subscripts -----

/// The position an integer subscript names in a dimension of `dim_size`,
/// negative subscripts counting from the end.
pub open spec fn resolved_index(idx: isize, dim_size: usize) -> Option<usize> {
    let position = if idx < 0 {
        dim_size + idx
    } else {
        idx as int
    };
    if 0 <= position < dim_size {
        Some(position as usize)
    } else {
        None
    }
}

/// A non-negative subscript names that position and a negative one counts
/// back from the end; a subscript is refused exactly when it lies outside
/// `-dim_size..dim_size`.
pub proof fn lemma_resolved_index_counts_from_either_end(idx: isize, dim_size: usize)
    ensures
        resolved_index(idx, dim_size) is None <==> (idx >= dim_size || idx < -(dim_size as int)),
        idx >= 0 && idx < dim_size ==> resolved_index(idx, dim_size) == Some(idx as usize),
        idx < 0 && idx >= -(dim_size as int) ==> resolved_index(idx, dim_size) == Some(
            (dim_size + idx) as usize,
        ),
{
}

/// Resolves an integer subscript against a dimension, counting negative
/// subscripts from the end.
pub fn resolve_index(idx: isize, dim_size: usize) -> (resolved: Result<usize, IndexingError>)
    requires
        dim_size <= isize::MAX,
    ensures
        match resolved {
            Ok(position) => resolved_index(idx, dim_size) == Some(position),
            Err(e) => resolved_index(idx, dim_size) is None && e == (IndexingError::OutOfRange {
                index: idx,
                dim_size,
            }),
        },
{
    let position: isize = if idx < 0 {
        dim_size as isize + idx
    } else {
        idx
    };
    if position < 0 || position as usize >= dim_size {
        return Err(IndexingError::OutOfRange { index: idx, dim_size });
    }
    Ok(position as usize)
}

// ----- subscript tuples -----

/// The positions `0..n`, in order.
pub open spec fn all_positions(n: usize) -> Seq<usize> {
    Seq::new(n as nat, |i: int| i as usize)
}

/// The selections of a subscript tuple along every axis of `shape`: those
/// given, then every position of each axis left out. Refused when more
/// subscripts are given than the array has axes.
pub fn complete_selections(shape: &[usize], given: Vec<AxisIndex>) -> (selections: Result<
    Vec<AxisIndex>,
    IndexingError,
>)
    ensures
        given@.len() > shape@.len() ==> selections == Err::<Vec<AxisIndex>, IndexingError>(
            IndexingError::TooManySubscripts {
                given: given@.len() as usize,
                rank: shape@.len() as usize,
            },
        ),
        given@.len() <= shape@.len() ==> (selections matches Ok(sel) && sel@.len() == shape@.len()
            && (forall|a: int| 0 <= a < given@.len() ==> #[trigger] sel@[a] == given@[a]) && (
        forall|a: int|
            given@.len() <= a < shape@.len() ==> (#[trigger] sel@[a] matches AxisIndex::Range(v)
                && v@ == all_positions(shape@[a])))),
{
    if given.len() > shape.len() {
        return Err(IndexingError::TooManySubscripts { given: given.len(), rank: shape.len() });
    }
    let ghost g = given@;
    let mut selections = given;
    let mut a: usize = selections.len();
    while a < shape.len()
        invariant
            g.len() <= a <= shape@.len(),
            selections@.len() == a,
            forall|b: int| 0 <= b < g.len() ==> #[trigger] selections@[b] == g[b],
            forall|b: int|
                g.len() <= b < a ==> (#[trigger] selections@[b] matches AxisIndex::Range(v) && v@
                    == all_positions(shape@[b])),
        decreases shape@.len() - a,
    {
        let n = shape[a];
        let mut positions: Vec<usize> = Vec::new();
        let mut i: usize = 0;
        while i < n
            invariant
                i <= n,
                positions@ == all_positions(n).take(i as int),
            decreases n - i,
        {
            positions.push(i);
            i = i + 1;
            proof {
                assert(positions@ =~= all_positions(n).take(i as int));
            }
        }
        proof {
            assert(positions@ =~= all_positions(n));
        }
        selections.push(AxisIndex::Range(positions));
        a = a + 1;
    }
    Ok(selections)
}

// ----- slices -----

pub open spec fn slice_measure(start: int, stop: int, step: int) -> nat {
    if step > 0 && start < stop {
        (stop - start) as nat
    } else if step < 0 && start > stop {
        (start - stop) as nat
    } else {
        0
    }
}

/// The positions `start, start + step, ...` strictly before `stop` in the
/// direction of `step`.
pub open spec fn slice_seq(start: int, stop: int, step: int) -> Seq<int>
    decreases slice_measure(start, stop, step),
{
    if (step > 0 && start < stop) || (step < 0 && start > stop) {
        seq![start] + slice_seq(start + step, stop, step)
    } else {
        Seq::empty()
    }
}

/// A slice picks `start`, `start + step`, `start + 2 * step`, ... for as
/// long as the position lies before `stop` in the direction of `step`.
pub proof fn lemma_slice_positions(start: int, stop: int, step: int)
    requires
        step != 0,
    ensures
        forall|k: int|
            0 <= k < slice_seq(start, stop, step).len() ==> #[trigger] slice_seq(start, stop, step)[k]
                == start + k * step,
        forall|k: int|
            0 <= k < slice_seq(start, stop, step).len() ==> (step > 0 ==> #[trigger] slice_seq(
                start,
                stop,
                step,
            )[k] < stop) && (step < 0 ==> slice_seq(start, stop, step)[k] > stop),
        step > 0 ==> start + slice_seq(start, stop, step).len() * step >= stop,
        step < 0 ==> start + slice_seq(start, stop, step).len() * step <= stop,
    decreases slice_measure(start, stop, step),
{
    if (step > 0 && start < stop) || (step < 0 && start > stop) {
        lemma_slice_positions(start + step, stop, step);
        let rest = slice_seq(start + step, stop, step);
        let all = slice_seq(start, stop, step);
        assert(all == seq![start] + rest);
        assert forall|k: int| 0 <= k < all.len() implies #[trigger] all[k] == start + k * step by {
            if k > 0 {
                assert(all[k] == rest[k - 1]);
                assert(start + step + (k - 1) * step == start + k * step) by (nonlinear_arith);
            }
        }
        assert(start + step + rest.len() * step == start + all.len() * step) by (nonlinear_arith)
            requires
                all.len() == rest.len() + 1,
        ;
    }
}

/// The positions a slice picks, from the start, stop and step that the
/// slice resolves to against the length of its axis (start and stop
/// within `-1..=len`, never below `0` for a positive step).
pub fn slice_indices(start: isize, stop: isize, step: isize, len: usize) -> (positions: Vec<usize>)
    requires
        step != 0,
        -1 <= start <= len,
        -1 <= stop <= len,
        step > 0 ==> 0 <= start,
    ensures
        positions@.len() == slice_seq(start as int, stop as int, step as int).len(),
        forall|k: int|
            0 <= k < positions@.len() ==> positions@[k] as int == slice_seq(
                start as int,
                stop as int,
                step as int,
            )[k],
{
    let mut result: Vec<usize> = Vec::new();
    let mut i: isize = start;
    while (step > 0 && i < stop) || (step < 0 && i > stop)
        invariant_except_break
            result@.len() + slice_seq(i as int, stop as int, step as int).len() == slice_seq(
                start as int,
                stop as int,
                step as int,
            ).len(),
            forall|k: int|
                0 <= k < result@.len() ==> result@[k] as int == slice_seq(
                    start as int,
                    stop as int,
                    step as int,
                )[k],
            forall|k: int|
                0 <= k < slice_seq(i as int, stop as int, step as int).len() ==> slice_seq(
                    i as int,
                    stop as int,
                    step as int,
                )[k] == slice_seq(start as int, stop as int, step as int)[result@.len() + k],
        invariant
            step != 0,
            -1 <= stop <= len,
            step > 0 ==> 0 <= i,
            step < 0 ==> i <= len,
        ensures
            result@.len() == slice_seq(start as int, stop as int, step as int).len(),
            forall|k: int|
                0 <= k < result@.len() ==> result@[k] as int == slice_seq(
                    start as int,
                    stop as int,
                    step as int,
                )[k],
        decreases slice_measure(i as int, stop as int, step as int),
    {
        let ghost before = slice_seq(i as int, stop as int, step as int);
        assert(before == seq![i as int] + slice_seq(i + step, stop as int, step as int));
        assert(before[0] == i);
        result.push(i as usize);
        match i.checked_add(step) {
            Some(next) => {
                i = next;
                assert forall|k: int|
                    0 <= k < slice_seq(i as int, stop as int, step as int).len() implies slice_seq(
                    i as int,
                    stop as int,
                    step as int,
                )[k] == slice_seq(start as int, stop as int, step as int)[result@.len() + k] by {
                    assert(before[k + 1] == slice_seq(i as int, stop as int, step as int)[k]);
                }
            },
            None => {
                // the next position lies beyond the axis, so the slice ends here
                assert(slice_seq(i + step, stop as int, step as int) =~= Seq::<int>::empty());
                assert(before.len() == 1);
                break;
            },
        }
    }
    result
}

// ----- boolean masks -----

/// The positions at which `mask` holds `true`, in increasing order.
pub open spec fn true_positions(mask: Seq<bool>) -> Seq<usize>
    decreases mask.len(),
{
    if mask.len() == 0 {
        Seq::empty()
    } else {
        true_positions(mask.drop_last()) + if mask.last() {
            seq![(mask.len() - 1) as usize]
        } else {
            Seq::empty()
        }
    }
}

/// The positions a boolean mask selects; the mask must be as long as the
/// array.
pub fn boolean_mask_indices(mask: &[bool], expected_len: usize) -> (positions: Result<
    Vec<usize>,
    IndexingError,
>)
    ensures
        match positions {
            Ok(p) => mask@.len() == expected_len && p@ == true_positions(mask@),
            Err(e) => mask@.len() != expected_len && e == (IndexingError::MaskLengthMismatch {
                mask_len: mask@.len() as usize,
                expected_len,
            }),
        },
{
    if mask.len() != expected_len {
        return Err(
            IndexingError::MaskLengthMismatch { mask_len: mask.len(), expected_len },
        );
    }
    let mut result: Vec<usize> = Vec::new();
    let mut i: usize = 0;
    while i < mask.len()
        invariant
            i <= mask@.len(),
            result@ == true_positions(mask@.take(i as int)),
        decreases mask@.len() - i,
    {
        proof {
            assert(mask@.take(i + 1).drop_last() =~= mask@.take(i as int));
        }
        if mask[i] {
            result.push(i);
        }
        proof {
            if !mask@[i as int] {
                assert(result@ =~= true_positions(mask@.take(i + 1)));
            }
        }
        i = i + 1;
    }
    proof {
        assert(mask@.take(i as int) =~= mask@);
    }
    Ok(result)
}

/// The positions a mask selects are exactly those where it holds `true`,
/// each once, in increasing order.
pub proof fn lemma_true_positions(mask: Seq<bool>)
    requires
        mask.len() <= usize::MAX + 1,
    ensures
        forall|i: int, j: int|
            0 <= i < j < true_positions(mask).len() ==> true_positions(mask)[i] < true_positions(
                mask,
            )[j],
        forall|p: int|
            0 <= p < mask.len() ==> (mask[p] <==> true_positions(mask).contains(p as usize)),
        forall|k: int|
            0 <= k < true_positions(mask).len() ==> #[trigger] true_positions(mask)[k] < mask.len(),
    decreases mask.len(),
{
    if mask.len() > 0 {
        let prev = mask.drop_last();
        lemma_true_positions(prev);
        let tp = true_positions(mask);
        let tprev = true_positions(prev);
        let last = (mask.len() - 1) as usize;
        if mask.last() {
            assert(tp == tprev.push(last));
        } else {
            assert(tp == tprev);
        }
        assert forall|p: int| 0 <= p < mask.len() implies (mask[p] <==> tp.contains(p as usize)) by {
            if p < mask.len() - 1 {
                assert(prev[p] == mask[p]);
                if tp.contains(p as usize) {
                    let k = choose|k: int| 0 <= k < tp.len() && tp[k] == p as usize;
                    if k < tprev.len() {
                        assert(tprev[k] == tp[k]);
                    }
                }
                if tprev.contains(p as usize) {
                    let k = choose|k: int| 0 <= k < tprev.len() && tprev[k] == p as usize;
                    assert(tp[k] == tprev[k]);
                }
            } else if mask[p] {
                assert(tp[tp.len() - 1] == p as usize);
            } else {
                if tp.contains(p as usize) {
                    let k = choose|k: int| 0 <= k < tp.len() && tp[k] == p as usize;
                    assert(tprev[k] < prev.len());
                }
            }
        }
    }
}

// ----- row-major strides and flat offsets -----

/// The product of a list of dimensions.
pub open spec fn dims_product(dims: Seq<usize>) -> nat
    decreases dims.len(),
{
    if dims.len() == 0 {
        1
    } else {
        (dims[0] * dims_product(dims.drop_first())) as nat
    }
}

/// The number of cells spanned by axes `axis..` of `shape`.
pub open spec fn span(shape: Seq<usize>, axis: int) -> nat {
    dims_product(shape.subrange(axis, shape.len() as int))
}

/// Every product of trailing dimensions of `shape` fits in `usize`.
pub open spec fn spans_fit(shape: Seq<usize>) -> bool {
    forall|axis: int| 0 <= axis <= shape.len() ==> #[trigger] span(shape, axis) <= usize::MAX
}

pub(crate) proof fn lemma_span_step(shape: Seq<usize>, axis: int)
    requires
        0 <= axis < shape.len(),
    ensures
        span(shape, axis) == shape[axis] * span(shape, axis + 1),
{
    assert(shape.subrange(axis, shape.len() as int).drop_first() =~= shape.subrange(
        axis + 1,
        shape.len() as int,
    ));
}

/// The row-major strides of `shape`: each axis steps over the cells of the
/// axes after it.
pub fn row_major_strides(shape: &[usize]) -> (strides: Vec<usize>)
    requires
        spans_fit(shape@),
    ensures
        strides@.len() == shape@.len(),
        forall|axis: int| 0 <= axis < shape@.len() ==> #[trigger] strides@[axis] == span(shape@, axis + 1),
{
    let mut strides: Vec<usize> = Vec::new();
    let mut k: usize = 0;
    while k < shape.len()
        invariant
            k <= shape@.len(),
            strides@.len() == k,
            forall|j: int| 0 <= j < k ==> strides@[j] == 1,
        decreases shape@.len() - k,
    {
        strides.push(1);
        k = k + 1;
    }
    let mut stride: usize = 1;
    let mut idx: usize = shape.len();
    proof {
        assert(shape@.subrange(shape@.len() as int, shape@.len() as int) =~= Seq::<usize>::empty());
    }
    while idx > 0
        invariant
            idx <= shape@.len(),
            spans_fit(shape@),
            strides@.len() == shape@.len(),
            stride == span(shape@, idx as int),
            forall|j: int| idx <= j < shape@.len() ==> #[trigger] strides@[j] == span(shape@, j + 1),
        decreases idx,
    {
        idx = idx - 1;
        strides.set(idx, stride);
        proof {
            lemma_span_step(shape@, idx as int);
            assert(span(shape@, idx as int) <= usize::MAX);
        }
        stride = shape[idx] * stride;
    }
    strides
}

pub open spec fn range_len(sels: Seq<AxisIndex>, axis: int) -> nat {
    match sels[axis] {
        AxisIndex::Range(v) => v@.len(),
        AxisIndex::Single(_) => 0,
    }
}

/// The flat offsets picked by the selections of axes `axis..`, starting
/// from offset `base`, with the last axis varying fastest.
pub open spec fn walk_spec(sels: Seq<AxisIndex>, strides: Seq<usize>, axis: int, base: int) -> Seq<
    int,
>
    decreases sels.len() - axis, range_len(sels, axis) + 1,
{
    if axis < 0 || axis >= sels.len() {
        seq![base]
    } else {
        match sels[axis] {
            AxisIndex::Single(i) => walk_spec(sels, strides, axis + 1, base + i * strides[axis]),
            AxisIndex::Range(v) => walk_range(sels, strides, axis, base, v@.len()),
        }
    }
}

/// The flat offsets picked when axis `axis` takes the first `k` positions
/// of its list.
pub open spec fn walk_range(
    sels: Seq<AxisIndex>,
    strides: Seq<usize>,
    axis: int,
    base: int,
    k: nat,
) -> Seq<int>
    decreases sels.len() - axis, k,
{
    if axis < 0 || axis >= sels.len() || k == 0 {
        Seq::empty()
    } else {
        match sels[axis] {
            AxisIndex::Range(v) => walk_range(sels, strides, axis, base, (k - 1) as nat) + walk_spec(
                sels,
                strides,
                axis + 1,
                base + v@[k - 1] * strides[axis],
            ),
            AxisIndex::Single(_) => Seq::empty(),
        }
    }
}

/// Every selection stays inside its axis.
pub open spec fn selections_in_bounds(shape: Seq<usize>, sels: Seq<AxisIndex>) -> bool {
    &&& sels.len() == shape.len()
    &&& forall|axis: int|
        0 <= axis < sels.len() ==> match #[trigger] sels[axis] {
            AxisIndex::Single(i) => i < shape[axis],
            AxisIndex::Range(v) => forall|j: int| 0 <= j < v@.len() ==> v@[j] < shape[axis],
        }
}

/// The lengths of the axes that a selection keeps.
pub open spec fn kept_lengths(sels: Seq<AxisIndex>) -> Seq<usize>
    decreases sels.len(),
{
    if sels.len() == 0 {
        Seq::empty()
    } else {
        kept_lengths(sels.drop_last()) + match sels.last() {
            AxisIndex::Range(v) => seq![v@.len() as usize],
            AxisIndex::Single(_) => Seq::empty(),
        }
    }
}

/// For each axis a selection keeps, in order: the axis, and whether the
/// selection takes as many positions as the axis has, so that the axis keeps
/// its labels whole.
pub open spec fn sliced_axes_spec(shape: Seq<usize>, sels: Seq<AxisIndex>) -> Seq<(usize, bool)>
    decreases sels.len(),
{
    if sels.len() == 0 {
        Seq::empty()
    } else {
        let axis = sels.len() - 1;
        sliced_axes_spec(shape, sels.drop_last()) + match sels.last() {
            AxisIndex::Range(v) => seq![(axis as usize, v@.len() == shape[axis])],
            AxisIndex::Single(_) => Seq::empty(),
        }
    }
}

/// The axes a selection keeps, each with whether it keeps all of its
/// positions (and so its labels) or only those selected.
pub fn sliced_axes(shape: &[usize], selections: &[AxisIndex]) -> (axes: Vec<(usize, bool)>)
    requires
        selections@.len() <= shape@.len(),
    ensures
        axes@ == sliced_axes_spec(shape@, selections@),
{
    let mut axes: Vec<(usize, bool)> = Vec::new();
    let mut a: usize = 0;
    while a < selections.len()
        invariant
            a <= selections@.len() <= shape@.len(),
            axes@ == sliced_axes_spec(shape@, selections@.take(a as int)),
        decreases selections@.len() - a,
    {
        proof {
            assert(selections@.take(a + 1).drop_last() =~= selections@.take(a as int));
        }
        match &selections[a] {
            AxisIndex::Range(indices) => {
                axes.push((a, indices.len() == shape[a]));
            },
            AxisIndex::Single(_) => {},
        }
        proof {
            assert(axes@ =~= sliced_axes_spec(shape@, selections@.take(a + 1)));
        }
        a = a + 1;
    }
    proof {
        assert(selections@.take(selections@.len() as int) =~= selections@);
    }
    axes
}

pub open spec fn as_ints(s: Seq<usize>) -> Seq<int> {
    s.map_values(|x: usize| x as int)
}

fn walk(
    axis: usize,
    base: usize,
    selections: &[AxisIndex],
    strides: &[usize],
    shape: &[usize],
    out: &mut Vec<usize>,
)
    requires
        axis <= selections@.len(),
        selections_in_bounds(shape@, selections@),
        spans_fit(shape@),
        strides@.len() == shape@.len(),
        forall|a: int| 0 <= a < shape@.len() ==> #[trigger] strides@[a] == span(shape@, a + 1),
        base + span(shape@, axis as int) <= span(shape@, 0),
    ensures
        as_ints(final(out)@) == as_ints(old(out)@) + walk_spec(
            selections@,
            strides@,
            axis as int,
            base as int,
        ),
        forall|k: int|
            old(out)@.len() <= k < final(out)@.len() ==> #[trigger] final(out)@[k] < span(shape@, 0),
        forall|k: int| 0 <= k < old(out)@.len() ==> #[trigger] final(out)@[k] == old(out)@[k],
    decreases selections@.len() - axis, range_len(selections@, axis as int) + 1,
{
    if axis == selections.len() {
        proof {
            assert(shape@.subrange(axis as int, shape@.len() as int) =~= Seq::<usize>::empty());
            assert(span(shape@, 0) <= usize::MAX);
        }
        out.push(base);
        proof {
            assert(as_ints(out@) =~= as_ints(old(out)@) + seq![base as int]);
        }
        return;
    }
    proof {
        lemma_span_step(shape@, axis as int);
        assert(span(shape@, 0) <= usize::MAX);
    }
    match &selections[axis] {
        AxisIndex::Single(idx) => {
            let idx = *idx;
            proof {
                lemma_step_offset(idx as int, shape@[axis as int] as int, span(shape@, axis + 1));
            }
            walk(axis + 1, base + idx * strides[axis], selections, strides, shape, out);
        },
        AxisIndex::Range(indices) => {
            let ghost start = as_ints(out@);
            let mut j: usize = 0;
            while j < indices.len()
                invariant
                    axis < selections.len(),
                    selections@[axis as int] == AxisIndex::Range(*indices),
                    selections_in_bounds(shape@, selections@),
                    spans_fit(shape@),
                    strides@.len() == shape@.len(),
                    forall|a: int| 0 <= a < shape@.len() ==> #[trigger] strides@[a] == span(shape@, a + 1),
                    base + span(shape@, axis as int) <= span(shape@, 0),
                    span(shape@, axis as int) == shape@[axis as int] * span(shape@, axis + 1),
                    span(shape@, 0) <= usize::MAX,
                    j <= indices@.len(),
                    start.len() <= out@.len(),
                    forall|k: int| start.len() <= k < out@.len() ==> #[trigger] out@[k] < span(shape@, 0),
                    forall|k: int| 0 <= k < start.len() ==> #[trigger] out@[k] == old(out)@[k],
                    start == as_ints(old(out)@),
                    as_ints(out@) == start + walk_range(
                        selections@,
                        strides@,
                        axis as int,
                        base as int,
                        j as nat,
                    ),
                decreases indices@.len() - j,
            {
                let idx = indices[j];
                proof {
                    lemma_step_offset(idx as int, shape@[axis as int] as int, span(shape@, axis + 1));
                }
                let ghost before = as_ints(out@);
                walk(axis + 1, base + idx * strides[axis], selections, strides, shape, out);
                j = j + 1;
                proof {
                    assert(start + walk_range(selections@, strides@, axis as int, base as int, j as nat)
                        =~= before + walk_spec(
                        selections@,
                        strides@,
                        axis + 1,
                        base + idx * strides@[axis as int],
                    ));
                }
            }
        },
    }
}

/// Stepping to a position inside an axis stays inside that axis's span.
pub(crate) proof fn lemma_step_offset(idx: int, size: int, inner: nat)
    requires
        0 <= idx < size,
    ensures
        idx * inner + inner <= size * inner,
{
    assert(idx * inner + inner <= size * inner) by (nonlinear_arith)
        requires
            0 <= idx < size,
            inner >= 0,
    ;
}

/// The flat row-major offsets that `selections` picks, the last axis
/// varying fastest, and the lengths of the axes it keeps.
pub fn selected_flat_indices(shape: &[usize], selections: &[AxisIndex]) -> (selected: (
    Vec<usize>,
    Vec<usize>,
))
    requires
        spans_fit(shape@),
        selections_in_bounds(shape@, selections@),
    ensures
        as_ints(selected.0@) == walk_spec(
            selections@,
            row_major_strides_spec(shape@),
            0,
            0,
        ),
        selected.1@ == kept_lengths(selections@),
        forall|k: int| 0 <= k < selected.0@.len() ==> #[trigger] selected.0@[k] < span(shape@, 0),
{
    let strides = row_major_strides(shape);
    proof {
        assert(strides@ =~= row_major_strides_spec(shape@));
    }
    let mut out_shape: Vec<usize> = Vec::new();
    let mut a: usize = 0;
    while a < selections.len()
        invariant
            a <= selections@.len(),
            out_shape@ == kept_lengths(selections@.take(a as int)),
        decreases selections@.len() - a,
    {
        proof {
            assert(selections@.take(a + 1).drop_last() =~= selections@.take(a as int));
        }
        match &selections[a] {
            AxisIndex::Range(indices) => {
                out_shape.push(indices.len());
            },
            AxisIndex::Single(_) => {},
        }
        proof {
            assert(out_shape@ =~= kept_lengths(selections@.take(a + 1)));
        }
        a = a + 1;
    }
    proof {
        assert(selections@.take(a as int) =~= selections@);
    }
    let mut flat_indices: Vec<usize> = Vec::new();
    proof {
        assert(shape@.subrange(0, shape@.len() as int) =~= shape@);
    }
    walk(0, 0, selections, &strides, shape, &mut flat_indices);
    proof {
        assert(as_ints(Seq::<usize>::empty()) =~= Seq::<int>::empty());
        assert(Seq::<int>::empty() + walk_spec(selections@, strides@, 0, 0) =~= walk_spec(
            selections@,
            strides@,
            0,
            0,
        ));
    }
    (flat_indices, out_shape)
}

/// The row-major strides of a shape.
pub open spec fn row_major_strides_spec(shape: Seq<usize>) -> Seq<usize> {
    Seq::new(shape.len(), |axis: int| span(shape, axis + 1) as usize)
}


// ----- index sets -----

/// Why an index set could not be built or indexed.
#[derive(Debug, Clone, Copy, PartialEq, Eq, Structural)]
pub enum IndexSetError {
    /// `size` was zero.
    ZeroSize,
    /// `members` was empty.
    NoMembers,
    /// Both `size` and `members` were given.
    SizeAndMembers,
    /// Neither `size` nor `members` was given.
    NeitherSizeNorMembers,
    /// A slice selected no member.
    EmptySlice,
}

/// Where the members of a new index set come from.
#[derive(Debug, Clone, Copy, PartialEq, Eq, Structural)]
pub enum IndexSetSource {
    /// The integers `0..n`.
    Range(usize),
    /// The members given.
    Members,
}

/// Checks the arguments of a new index set: exactly one of a positive
/// size and a non-empty list of (here, `member_count`) members.
pub fn index_set_source(size: Option<usize>, member_count: Option<usize>) -> (source: Result<
    IndexSetSource,
    IndexSetError,
>)
    ensures
        source == match (size, member_count) {
            (Some(n), None) => if n == 0 {
                Err(IndexSetError::ZeroSize)
            } else {
                Ok(IndexSetSource::Range(n))
            },
            (None, Some(m)) => if m == 0 {
                Err(IndexSetError::NoMembers)
            } else {
                Ok(IndexSetSource::Members)
            },
            (Some(_), Some(_)) => Err(IndexSetError::SizeAndMembers),
            (None, None) => Err(IndexSetError::NeitherSizeNorMembers),
        },
{
    match (size, member_count) {
        (Some(n), None) => if n == 0 {
            Err(IndexSetError::ZeroSize)
        } else {
            Ok(IndexSetSource::Range(n))
        },
        (None, Some(m)) => if m == 0 {
            Err(IndexSetError::NoMembers)
        } else {
            Ok(IndexSetSource::Members)
        },
        (Some(_), Some(_)) => Err(IndexSetError::SizeAndMembers),
        (None, None) => Err(IndexSetError::NeitherSizeNorMembers),
    }
}

/// The members a slice of an index set keeps, which must be at least one.
pub fn index_set_slice(start: isize, stop: isize, step: isize, len: usize) -> (positions: Result<
    Vec<usize>,
    IndexSetError,
>)
    requires
        step != 0,
        -1 <= start <= len,
        -1 <= stop <= len,
        step > 0 ==> 0 <= start,
    ensures
        match positions {
            Ok(p) => p@.len() == slice_seq(start as int, stop as int, step as int).len() && p@.len() > 0
                && forall|k: int|
                0 <= k < p@.len() ==> p@[k] as int == slice_seq(start as int, stop as int, step as int)[k],
            Err(e) => e == IndexSetError::EmptySlice && slice_seq(
                start as int,
                stop as int,
                step as int,
            ).len() == 0,
        },
{
    let positions = slice_indices(start, stop, step, len);
    if positions.len() == 0 {
        return Err(IndexSetError::EmptySlice);
    }
    Ok(positions)
}

/// The description of an index set: `IndexSet(name='<name>', size=<size>)`.
pub fn index_set_repr(name: &str, size: usize) -> (repr: String)
    ensures
        repr@ == "IndexSet(name='"@ + name@ + "', size="@ + crate::text::decimal(size as nat) + ")"@,
{
    let mut repr = String::new();
    crate::text::push_str(&mut repr, "IndexSet(name='");
    crate::text::push_str(&mut repr, name);
    crate::text::push_str(&mut repr, "', size=");
    crate::text::push_decimal(&mut repr, size);
    crate::text::push_str(&mut repr, ")");
    repr
}

/// The name of an index set made for a slice of `size` members:
/// `_slice_<size>`.
pub fn slice_index_set_name(size: usize) -> (name: String)
    ensures
        name@ == "_slice_"@ + crate::text::decimal(size as nat),
{
    let mut name = String::new();
    crate::text::push_str(&mut name, "_slice_");
    crate::text::push_decimal(&mut name, size);
    name
}

} // verus!
