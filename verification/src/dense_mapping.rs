//! Compact bijection between the active offsets of a sparse variable array
//! (`0..n`) and the dense row-major offsets (`indices[0..n]`) they stand for.
//!
//! Three encodings are used: nothing at all when the indices are `0..n`,
//! a list of contiguous runs when the indices are sorted and the runs take
//! less room than the indices, and the indices themselves otherwise.

use vstd::prelude::*;

verus! {

/// A maximal stretch of consecutive active offsets whose dense offsets are
/// consecutive too.
#[derive(Debug, Clone, Copy, PartialEq, Eq, Structural)]
pub struct DenseIndexRun {
    pub active_start: usize,
    pub dense_start: usize,
}

/// The three encodings of a dense index mapping.
#[derive(Debug)]
pub enum DenseLayout {
    Identity,
    Runs(Box<[DenseIndexRun]>),
    Explicit(Box<[usize]>),
}

/// Mapping between active offsets and dense offsets of a sparse array.
#[derive(Debug)]
pub struct DenseIndexMapping {
    layout: DenseLayout,
}

// ----- specification of the index sequences -----

pub open spec fn is_identity(idx: Seq<usize>) -> bool {
    forall|i: int| 0 <= i < idx.len() ==> idx[i] as int == i
}

pub open spec fn is_strictly_increasing(idx: Seq<usize>) -> bool {
    forall|i: int| 0 < i < idx.len() ==> idx[i - 1] < #[trigger] idx[i]
}

/// Whether active offset `i` begins a new run: it is the first one, or its
/// dense offset does not follow the previous dense offset.
pub open spec fn starts_run(idx: Seq<usize>, i: int) -> bool {
    i == 0 || idx[i - 1] as int + 1 != idx[i] as int
}

/// The runs of the first `k` entries of `idx`, in order.
pub open spec fn runs_prefix(idx: Seq<usize>, k: nat) -> Seq<DenseIndexRun>
    decreases k,
{
    if k == 0 {
        Seq::empty()
    } else {
        let prev = runs_prefix(idx, (k - 1) as nat);
        if starts_run(idx, k - 1) {
            prev.push(DenseIndexRun { active_start: (k - 1) as usize, dense_start: idx[k - 1] })
        } else {
            prev
        }
    }
}

pub open spec fn runs_of(idx: Seq<usize>) -> Seq<DenseIndexRun> {
    runs_prefix(idx, idx.len())
}

/// Whether storing `run_count` runs takes fewer bytes than storing `n`
/// indices (both sizes computed without overflow).
pub open spec fn runs_pay_off(run_count: nat, n: nat) -> bool {
    &&& run_count * vstd::layout::size_of::<DenseIndexRun>() <= usize::MAX
    &&& n * vstd::layout::size_of::<usize>() <= usize::MAX
    &&& run_count * vstd::layout::size_of::<DenseIndexRun>() < n * vstd::layout::size_of::<usize>()
}

/// The first position at or after `i` where `idx` holds `d`, if any.
pub open spec fn first_position_from(idx: Seq<usize>, d: usize, i: nat) -> Option<usize>
    decreases idx.len() - i,
{
    if i >= idx.len() {
        None
    } else if idx[i as int] == d {
        Some(i as usize)
    } else {
        first_position_from(idx, d, i + 1)
    }
}

/// The first position of `d` in `idx`, if any.
pub open spec fn first_position(idx: Seq<usize>, d: usize) -> Option<usize> {
    first_position_from(idx, d, 0)
}

// ----- specification of the run lookup -----

pub open spec fn runs_sorted(r: Seq<DenseIndexRun>) -> bool {
    forall|j: int, k: int|
        0 <= j < k < r.len() ==> r[j].active_start < r[k].active_start && r[j].dense_start
            < r[k].dense_start
}

/// Where run `j` ends (exclusive), `len` being the number of active offsets.
pub open spec fn run_end(r: Seq<DenseIndexRun>, j: int, len: usize) -> int {
    if j + 1 < r.len() {
        r[j + 1].active_start as int
    } else {
        len as int
    }
}

/// The run holding active offset `a`: the last one that starts at or before it.
pub open spec fn run_for_active(r: Seq<DenseIndexRun>, a: usize) -> int {
    choose|j: int|
        #![trigger r[j]]
        0 <= j < r.len() && r[j].active_start <= a && (j + 1 == r.len() || r[j + 1].active_start
            > a)
}

/// The run holding dense offset `d`: the last one whose dense start is at or before it.
pub open spec fn run_for_dense(r: Seq<DenseIndexRun>, d: usize) -> int {
    choose|j: int|
        #![trigger r[j]]
        0 <= j < r.len() && r[j].dense_start <= d && (j + 1 == r.len() || r[j + 1].dense_start
            > d)
}

pub open spec fn runs_dense_offset(r: Seq<DenseIndexRun>, a: usize, len: usize) -> Option<usize> {
    if r.len() == 0 || a < r[0].active_start {
        None
    } else {
        let j = run_for_active(r, a);
        let end = run_end(r, j, len);
        let delta = a - r[j].active_start;
        if end < r[j].active_start || delta >= end - r[j].active_start || r[j].dense_start + delta
            > usize::MAX {
            None
        } else {
            Some((r[j].dense_start + delta) as usize)
        }
    }
}

pub open spec fn runs_active_offset(r: Seq<DenseIndexRun>, d: usize, len: usize) -> Option<
    usize,
> {
    if r.len() == 0 || d < r[0].dense_start {
        None
    } else {
        let j = run_for_dense(r, d);
        let end = run_end(r, j, len);
        let delta = d - r[j].dense_start;
        if end < r[j].active_start || delta >= end - r[j].active_start || r[j].active_start + delta
            > usize::MAX {
            None
        } else {
            Some((r[j].active_start + delta) as usize)
        }
    }
}

pub open spec fn explicit_active_offset(v: Seq<usize>, d: usize) -> Option<usize> {
    first_position(v, d)
}

impl DenseIndexMapping {
    #[verifier::type_invariant]
    spec fn well_formed(self) -> bool {
        match self.layout {
            DenseLayout::Runs(r) => r@.len() > 0 && runs_sorted(r@),
            _ => true,
        }
    }

    pub closed spec fn layout_spec(self) -> DenseLayout {
        self.layout
    }

    /// The dense offset of active offset `a`, `len` being the number of active offsets.
    #[verifier::opaque]
    pub open spec fn dense_spec(self, a: usize, len: usize) -> Option<usize> {
        match self.layout_spec() {
            DenseLayout::Identity => if a < len {
                Some(a)
            } else {
                None
            },
            DenseLayout::Explicit(v) => if a < v@.len() {
                Some(v@[a as int])
            } else {
                None
            },
            DenseLayout::Runs(r) => runs_dense_offset(r@, a, len),
        }
    }

    /// The active offset of dense offset `d`, `len` being the number of active offsets.
    #[verifier::opaque]
    pub open spec fn active_spec(self, d: usize, len: usize) -> Option<usize> {
        match self.layout_spec() {
            DenseLayout::Identity => if d < len {
                Some(d)
            } else {
                None
            },
            DenseLayout::Explicit(v) => explicit_active_offset(v@, d),
            DenseLayout::Runs(r) => runs_active_offset(r@, d, len),
        }
    }

    /// This mapping, read with `idx.len()` active offsets, sends each active
    /// offset `a` to `idx[a]` and each dense offset to its first position in `idx`.
    pub open spec fn encodes(self, idx: Seq<usize>) -> bool {
        &&& idx.len() <= usize::MAX
        &&& forall|a: usize| #[trigger]
            self.dense_spec(a, idx.len() as usize) == (if a < idx.len() {
                Some(idx[a as int])
            } else {
                None
            })
        &&& forall|d: usize| #[trigger]
            self.active_spec(d, idx.len() as usize) == first_position(idx, d)
    }
}

// ----- lemmas -----

proof fn lemma_increasing_pairwise(idx: Seq<usize>, i: int, j: int)
    requires
        is_strictly_increasing(idx),
        0 <= i < j < idx.len(),
    ensures
        idx[i] < idx[j],
    decreases j - i,
{
    if j > i + 1 {
        lemma_increasing_pairwise(idx, i, j - 1);
    }
}

/// Shape of the runs of the first `k` entries: they start at 0, stay below
/// `k`, are sorted, and record the dense offset of their first entry.
proof fn lemma_runs_prefix(idx: Seq<usize>, k: nat)
    requires
        k <= idx.len(),
        idx.len() <= usize::MAX,
    ensures
        runs_prefix(idx, k).len() <= k,
        k > 0 ==> runs_prefix(idx, k).len() > 0 && runs_prefix(idx, k)[0].active_start == 0,
        forall|j: int|
            0 <= j < runs_prefix(idx, k).len() ==> #[trigger] runs_prefix(idx, k)[j].active_start
                < k,
        forall|j: int|
            0 <= j < runs_prefix(idx, k).len() ==> #[trigger] runs_prefix(idx, k)[j].dense_start
                == idx[runs_prefix(idx, k)[j].active_start as int],
        forall|j: int, l: int|
            0 <= j < l < runs_prefix(idx, k).len() ==> runs_prefix(idx, k)[j].active_start
                < runs_prefix(idx, k)[l].active_start,
    decreases k,
{
    if k > 0 {
        lemma_runs_prefix(idx, (k - 1) as nat);
    }
}

/// Within a run, dense offsets grow one by one with the active offsets.
proof fn lemma_runs_contiguous(idx: Seq<usize>, k: nat, j: int, a: int)
    requires
        k <= idx.len(),
        idx.len() <= usize::MAX,
        0 <= j < runs_prefix(idx, k).len(),
        runs_prefix(idx, k)[j].active_start <= a < run_end(runs_prefix(idx, k), j, k as usize),
    ensures
        idx[a] == runs_prefix(idx, k)[j].dense_start + (a - runs_prefix(idx, k)[j].active_start),
    decreases k,
{
    lemma_runs_prefix(idx, k);
    lemma_runs_prefix(idx, (k - 1) as nat);
    let prev = runs_prefix(idx, (k - 1) as nat);
    let r = runs_prefix(idx, k);
    if starts_run(idx, k - 1) {
        if j < prev.len() {
            assert(r[j] == prev[j]);
            if j + 1 < prev.len() {
                assert(r[j + 1] == prev[j + 1]);
            }
            assert(run_end(r, j, k as usize) == run_end(prev, j, (k - 1) as usize));
            lemma_runs_contiguous(idx, (k - 1) as nat, j, a);
        }
    } else {
        let last = prev.len() - 1;
        if j < last {
            assert(run_end(r, j, k as usize) == run_end(prev, j, (k - 1) as usize));
            lemma_runs_contiguous(idx, (k - 1) as nat, j, a);
        } else if a < k - 1 {
            lemma_runs_contiguous(idx, (k - 1) as nat, j, a);
        } else {
            lemma_runs_contiguous(idx, (k - 1) as nat, j, k - 2);
        }
    }
}

/// For strictly increasing indices the runs are sorted in both coordinates.
proof fn lemma_runs_sorted(idx: Seq<usize>)
    requires
        idx.len() <= usize::MAX,
        is_strictly_increasing(idx),
    ensures
        runs_sorted(runs_of(idx)),
{
    lemma_runs_prefix(idx, idx.len());
    let r = runs_of(idx);
    assert forall|j: int, k: int| 0 <= j < k < r.len() implies r[j].active_start
        < r[k].active_start && r[j].dense_start < r[k].dense_start by {
        lemma_increasing_pairwise(idx, r[j].active_start as int, r[k].active_start as int);
    }
}

proof fn lemma_run_for_active(r: Seq<DenseIndexRun>, a: usize, j: int)
    requires
        runs_sorted(r),
        0 <= j < r.len(),
        r[j].active_start <= a,
        j + 1 == r.len() || r[j + 1].active_start > a,
    ensures
        run_for_active(r, a) == j,
{
    let c = run_for_active(r, a);
    assert(0 <= c < r.len() && r[c].active_start <= a && (c + 1 == r.len() || r[c
        + 1].active_start > a));
    if c < j {
        assert(r[c + 1].active_start <= r[j].active_start);
    } else if c > j {
        assert(r[j + 1].active_start <= r[c].active_start);
    }
}

proof fn lemma_run_for_dense(r: Seq<DenseIndexRun>, d: usize, j: int)
    requires
        runs_sorted(r),
        0 <= j < r.len(),
        r[j].dense_start <= d,
        j + 1 == r.len() || r[j + 1].dense_start > d,
    ensures
        run_for_dense(r, d) == j,
{
    let c = run_for_dense(r, d);
    assert(0 <= c < r.len() && r[c].dense_start <= d && (c + 1 == r.len() || r[c
        + 1].dense_start > d));
    if c < j {
        assert(r[c + 1].dense_start <= r[j].dense_start);
    } else if c > j {
        assert(r[j + 1].dense_start <= r[c].dense_start);
    }
}

/// There is a last run starting at or before `a` once the first one does.
proof fn lemma_run_for_active_exists(r: Seq<DenseIndexRun>, a: usize) -> (j: int)
    requires
        runs_sorted(r),
        r.len() > 0,
        r[0].active_start <= a,
    ensures
        0 <= j < r.len(),
        r[j].active_start <= a,
        j + 1 == r.len() || r[j + 1].active_start > a,
    decreases r.len(),
{
    if r.len() == 1 || r[1].active_start > a {
        0
    } else {
        let rest = r.subrange(1, r.len() as int);
        let k = lemma_run_for_active_exists(rest, a);
        k + 1
    }
}

proof fn lemma_run_for_dense_exists(r: Seq<DenseIndexRun>, d: usize) -> (j: int)
    requires
        runs_sorted(r),
        r.len() > 0,
        r[0].dense_start <= d,
    ensures
        0 <= j < r.len(),
        r[j].dense_start <= d,
        j + 1 == r.len() || r[j + 1].dense_start > d,
    decreases r.len(),
{
    if r.len() == 1 || r[1].dense_start > d {
        0
    } else {
        let rest = r.subrange(1, r.len() as int);
        let k = lemma_run_for_dense_exists(rest, d);
        k + 1
    }
}

proof fn lemma_first_position_from(idx: Seq<usize>, d: usize, k: nat)
    requires
        idx.len() <= usize::MAX,
        k <= idx.len(),
    ensures
        first_position_from(idx, d, k) matches Some(p) ==> k <= p < idx.len() && idx[p as int] == d
            && forall|j: int| k <= j < p ==> idx[j] != d,
        first_position_from(idx, d, k) is None ==> forall|j: int| k <= j < idx.len() ==> idx[j]
            != d,
    decreases idx.len() - k,
{
    if k < idx.len() && idx[k as int] != d {
        lemma_first_position_from(idx, d, k + 1);
    }
}

/// `first_position` is the position of the first occurrence.
proof fn lemma_first_position_at(idx: Seq<usize>, i: int)
    requires
        0 <= i < idx.len(),
        idx.len() <= usize::MAX,
        forall|j: int| 0 <= j < i ==> idx[j] != idx[i],
    ensures
        first_position(idx, idx[i]) == Some(i as usize),
{
    lemma_first_position_from(idx, idx[i], 0);
    if first_position(idx, idx[i]) is Some {
        let p = first_position(idx, idx[i])->0 as int;
        assert(p == i);
    }
}

/// What an answer of `first_position` says.
proof fn lemma_first_position_some(idx: Seq<usize>, d: usize)
    requires
        first_position(idx, d) is Some,
        idx.len() <= usize::MAX,
    ensures
        ({
            let p = first_position(idx, d)->0 as int;
            &&& 0 <= p < idx.len()
            &&& idx[p] == d
            &&& forall|j: int| 0 <= j < p ==> idx[j] != d
        }),
{
    lemma_first_position_from(idx, d, 0);
}

proof fn lemma_first_position_none(idx: Seq<usize>, d: usize)
    requires
        forall|i: int| 0 <= i < idx.len() ==> idx[i] != d,
        idx.len() <= usize::MAX,
    ensures
        first_position(idx, d) == None::<usize>,
{
    lemma_first_position_from(idx, d, 0);
}

proof fn lemma_first_position_unique(idx: Seq<usize>, i: int)
    requires
        is_strictly_increasing(idx),
        0 <= i < idx.len(),
        idx.len() <= usize::MAX,
    ensures
        first_position(idx, idx[i]) == Some(i as usize),
{
    assert forall|j: int| 0 <= j < i implies idx[j] != idx[i] by {
        lemma_increasing_pairwise(idx, j, i);
    }
    lemma_first_position_at(idx, i);
}

/// The runs of strictly increasing indices send each active offset to its index.
proof fn lemma_runs_dense(idx: Seq<usize>, a: usize)
    requires
        idx.len() <= usize::MAX,
        idx.len() > 0,
        is_strictly_increasing(idx),
    ensures
        runs_dense_offset(runs_of(idx), a, idx.len() as usize) == (if a < idx.len() {
            Some(idx[a as int])
        } else {
            None
        }),
{
    lemma_runs_prefix(idx, idx.len());
    lemma_runs_sorted(idx);
    let r = runs_of(idx);
    let j = lemma_run_for_active_exists(r, a);
    lemma_run_for_active(r, a, j);
    if a < run_end(r, j, idx.len() as usize) {
        lemma_runs_contiguous(idx, idx.len(), j, a as int);
    }
    if j + 1 < r.len() {
        assert(r[j + 1].active_start < idx.len());
    }
}

/// The runs of strictly increasing indices send each dense offset to its position.
proof fn lemma_runs_active(idx: Seq<usize>, d: usize)
    requires
        idx.len() <= usize::MAX,
        idx.len() > 0,
        is_strictly_increasing(idx),
    ensures
        runs_active_offset(runs_of(idx), d, idx.len() as usize) == first_position(idx, d),
{
    lemma_runs_prefix(idx, idx.len());
    lemma_runs_sorted(idx);
    let r = runs_of(idx);
    let n = idx.len() as int;
    if d < r[0].dense_start {
        assert forall|i: int| 0 <= i < n implies idx[i] != d by {
            if i > 0 {
                lemma_increasing_pairwise(idx, 0, i);
            }
        }
        lemma_first_position_none(idx, d);
    } else {
        let j = lemma_run_for_dense_exists(r, d);
        lemma_run_for_dense(r, d, j);
        let start = r[j].active_start as int;
        let end = run_end(r, j, idx.len() as usize);
        assert(start < end) by {
            if j + 1 < r.len() {
                assert(r[j].active_start < r[j + 1].active_start);
            }
        }
        let delta = d - r[j].dense_start;
        if delta < end - start {
            let a = start + delta;
            lemma_runs_contiguous(idx, idx.len(), j, a);
            assert(idx[a] == d);
            lemma_first_position_unique(idx, a);
        } else {
            // d lies strictly after the last index of run j and before run j + 1
            lemma_runs_contiguous(idx, idx.len(), j, end - 1);
            assert(idx[end - 1] == r[j].dense_start + (end - 1 - start));
            assert forall|i: int| 0 <= i < n implies idx[i] != d by {
                if i < end {
                    if i < end - 1 {
                        lemma_increasing_pairwise(idx, i, end - 1);
                    }
                } else {
                    assert(j + 1 < r.len());
                    assert(idx[end] == r[j + 1].dense_start);
                    if i > end {
                        lemma_increasing_pairwise(idx, end, i);
                    }
                }
            }
            lemma_first_position_none(idx, d);
        }
    }
}

proof fn lemma_identity_first_position(idx: Seq<usize>, d: usize)
    requires
        is_identity(idx),
        idx.len() <= usize::MAX,
    ensures
        first_position(idx, d) == (if d < idx.len() {
            Some(d)
        } else {
            None
        }),
{
    if d < idx.len() {
        assert(idx[d as int] == d);
        lemma_first_position_at(idx, d as int);
    } else {
        lemma_first_position_none(idx, d);
    }
}

// ----- laws -----

/// Reading an active offset forward and back lands on an active offset with
/// the same dense offset, never after the one started from.
pub proof fn lemma_dense_then_active(m: DenseIndexMapping, idx: Seq<usize>, a: usize)
    requires
        m.encodes(idx),
        a < idx.len(),
    ensures
        m.dense_spec(a, idx.len() as usize) == Some(idx[a as int]),
        m.active_spec(idx[a as int], idx.len() as usize) matches Some(p) && p <= a && idx[p as int]
            == idx[a as int],
{
    let d = idx[a as int];
    assert(m.dense_spec(a, idx.len() as usize) == Some(d));
    assert(m.active_spec(d, idx.len() as usize) == first_position(idx, d));
    if first_position(idx, d) is Some {
        lemma_first_position_some(idx, d);
        let p = first_position(idx, d)->0 as int;
        if p > a {
            assert(idx[a as int] != d);
        }
    } else {
        lemma_first_position_from(idx, d, 0);
    }
}

/// With pairwise distinct dense offsets the mapping is a bijection between
/// `0..len` and the dense offsets: going forward and back is the identity.
pub proof fn lemma_roundtrip_distinct(m: DenseIndexMapping, idx: Seq<usize>, a: usize)
    requires
        m.encodes(idx),
        a < idx.len(),
        forall|i: int, j: int| 0 <= i < j < idx.len() ==> idx[i] != idx[j],
    ensures
        m.active_spec(idx[a as int], idx.len() as usize) == Some(a),
{
    lemma_dense_then_active(m, idx, a);
    let p = m.active_spec(idx[a as int], idx.len() as usize)->0;
    if p < a {
        assert(idx[p as int] != idx[a as int]);
    }
}

/// Every answer of the backward lookup is confirmed by the forward lookup.
pub proof fn lemma_active_then_dense(m: DenseIndexMapping, idx: Seq<usize>, d: usize)
    requires
        m.encodes(idx),
        m.active_spec(d, idx.len() as usize) is Some,
    ensures
        m.dense_spec(m.active_spec(d, idx.len() as usize)->0, idx.len() as usize) == Some(d),
{
    assert(m.active_spec(d, idx.len() as usize) == first_position(idx, d));
    lemma_first_position_some(idx, d);
    let p = first_position(idx, d)->0;
    assert(m.dense_spec(p, idx.len() as usize) == Some(idx[p as int]));
}

/// Sorted indices without repeats are exactly the ones every encoding maps back
/// and forth without loss; the sequence built for them is one of runs, which
/// start at 0 and are sorted.
pub proof fn lemma_runs_of_sorted_indices(idx: Seq<usize>)
    requires
        idx.len() <= usize::MAX,
        idx.len() > 0,
        is_strictly_increasing(idx),
    ensures
        runs_of(idx).len() > 0,
        runs_of(idx)[0] == (DenseIndexRun { active_start: 0, dense_start: idx[0] }),
        runs_sorted(runs_of(idx)),
        runs_of(idx).len() <= idx.len(),
{
    lemma_runs_prefix(idx, idx.len());
    lemma_runs_sorted(idx);
    assert(runs_of(idx)[0].dense_start == idx[runs_of(idx)[0].active_start as int]);
}

// ----- executable code -----

#[verifier::external_body]
fn runs_into_boxed(v: Vec<DenseIndexRun>) -> (b: Box<[DenseIndexRun]>)
    ensures
        b@ == v@,
{
    v.into_boxed_slice()
}

#[verifier::external_body]
fn indices_into_boxed(v: Vec<usize>) -> (b: Box<[usize]>)
    ensures
        b@ == v@,
{
    v.into_boxed_slice()
}

pub(crate) fn copy_indices(indices: &[usize]) -> (v: Vec<usize>)
    ensures
        v@ == indices@,
{
    let mut v: Vec<usize> = Vec::with_capacity(indices.len());
    let mut i: usize = 0;
    while i < indices.len()
        invariant
            i <= indices.len(),
            v@ == indices@.subrange(0, i as int),
        decreases indices.len() - i,
    {
        v.push(indices[i]);
        i = i + 1;
    }
    v
}

fn check_identity(indices: &[usize]) -> (r: bool)
    ensures
        r == is_identity(indices@),
{
    let mut i: usize = 0;
    while i < indices.len()
        invariant
            i <= indices@.len(),
            forall|j: int| 0 <= j < i ==> indices@[j] as int == j,
        decreases indices.len() - i,
    {
        if indices[i] != i {
            return false;
        }
        i = i + 1;
    }
    true
}

fn check_increasing(indices: &[usize]) -> (r: bool)
    ensures
        r == is_strictly_increasing(indices@),
{
    let mut i: usize = 1;
    while i < indices.len()
        invariant
            1 <= i,
            i <= indices@.len() || indices@.len() == 0,
            forall|j: int| 0 < j < i && j < indices@.len() ==> indices@[j - 1] < #[trigger] indices@[j],
        decreases indices.len() - i,
    {
        if indices[i] <= indices[i - 1] {
            return false;
        }
        i = i + 1;
    }
    true
}

fn count_runs(indices: &[usize]) -> (count: usize)
    ensures
        count == runs_of(indices@).len(),
{
    let ghost idx = indices@;
    let n = indices.len();
    let mut count: usize = 0;
    let mut i: usize = 0;
    proof {
        lemma_runs_prefix(idx, 0);
    }
    while i < n
        invariant
            n == idx.len(),
            idx == indices@,
            i <= n,
            count == runs_prefix(idx, i as nat).len(),
        decreases n - i,
    {
        proof {
            lemma_runs_prefix(idx, (i + 1) as nat);
        }
        if i == 0 {
            count = 1;
        } else {
            let prev = indices[i - 1];
            if prev == usize::MAX || prev + 1 != indices[i] {
                count = count + 1;
            }
        }
        i = i + 1;
    }
    count
}

/// First position of `target` in `indices`.
fn position_of(indices: &[usize], target: usize) -> (r: Option<usize>)
    ensures
        r == first_position(indices@, target),
{
    let mut i: usize = 0;
    while i < indices.len()
        invariant
            i <= indices@.len(),
            forall|j: int| 0 <= j < i ==> indices@[j] != target,
        decreases indices.len() - i,
    {
        if indices[i] == target {
            proof {
                lemma_first_position_at(indices@, i as int);
            }
            return Some(i);
        }
        i = i + 1;
    }
    proof {
        lemma_first_position_none(indices@, target);
    }
    None
}

/// Number of runs with `key <= target`, for runs sorted by `key`
/// (`by_dense` selects the dense start as the key).
fn partition_point(runs: &[DenseIndexRun], target: usize, by_dense: bool) -> (p: usize)
    requires
        runs_sorted(runs@),
    ensures
        p <= runs@.len(),
        forall|j: int|
            0 <= j < p ==> (if by_dense {
                runs@[j].dense_start
            } else {
                runs@[j].active_start
            }) <= target,
        forall|j: int|
            p <= j < runs@.len() ==> (if by_dense {
                runs@[j].dense_start
            } else {
                runs@[j].active_start
            }) > target,
{
    let mut lo: usize = 0;
    let mut hi: usize = runs.len();
    while lo < hi
        invariant
            lo <= hi <= runs@.len(),
            runs_sorted(runs@),
            forall|j: int|
                0 <= j < lo ==> (if by_dense {
                    runs@[j].dense_start
                } else {
                    runs@[j].active_start
                }) <= target,
            forall|j: int|
                hi <= j < runs@.len() ==> (if by_dense {
                    runs@[j].dense_start
                } else {
                    runs@[j].active_start
                }) > target,
        decreases hi - lo,
    {
        let mid = lo + (hi - lo) / 2;
        let key = if by_dense {
            runs[mid].dense_start
        } else {
            runs[mid].active_start
        };
        if key <= target {
            lo = mid + 1;
        } else {
            hi = mid;
        }
    }
    lo
}

impl DenseIndexMapping {
    /// Chooses the encoding of `indices`: identity, runs, or the indices themselves.
    pub fn from_indices(indices: &[usize]) -> (mapping: Self)
        ensures
            mapping.encodes(indices@),
            is_identity(indices@) ==> mapping.layout_spec() is Identity,
            !is_identity(indices@) && !is_strictly_increasing(indices@) ==> (
            mapping.layout_spec() matches DenseLayout::Explicit(v) && v@ == indices@),
            !is_identity(indices@) && is_strictly_increasing(indices@) && runs_pay_off(
                runs_of(indices@).len(),
                indices@.len(),
            ) ==> (mapping.layout_spec() matches DenseLayout::Runs(r) && r@ == runs_of(
                indices@,
            )),
            !is_identity(indices@) && is_strictly_increasing(indices@) && !runs_pay_off(
                runs_of(indices@).len(),
                indices@.len(),
            ) ==> (mapping.layout_spec() matches DenseLayout::Explicit(v) && v@ == indices@),
    {
        let n = indices.len();
        let is_identity_so_far = check_identity(indices);
        let increasing = check_increasing(indices);
        let run_count = count_runs(indices);
        if is_identity_so_far {
            return Self::identity(indices);
        }
        if !increasing {
            return Self::explicit(indices);
        }
        let run_bytes = run_count.checked_mul(core::mem::size_of::<DenseIndexRun>());
        let explicit_bytes = n.checked_mul(core::mem::size_of::<usize>());
        let pays_off = match (run_bytes, explicit_bytes) {
            (Some(rb), Some(eb)) => rb < eb,
            _ => false,
        };
        if !pays_off {
            return Self::explicit(indices);
        }
        Self::runs(indices, run_count)
    }

    fn identity(indices: &[usize]) -> (mapping: Self)
        requires
            is_identity(indices@),
        ensures
            mapping.encodes(indices@),
            mapping.layout_spec() is Identity,
    {
        let n = indices.len();
        let mapping = DenseIndexMapping { layout: DenseLayout::Identity };
        proof {
            reveal(DenseIndexMapping::dense_spec);
            reveal(DenseIndexMapping::active_spec);
            assert forall|d: usize| #[trigger]
                mapping.active_spec(d, n) == first_position(indices@, d) by {
                lemma_identity_first_position(indices@, d);
            }
        }
        mapping
    }

    fn runs(indices: &[usize], run_count: usize) -> (mapping: Self)
        requires
            is_strictly_increasing(indices@),
            indices@.len() > 0,
            run_count == runs_of(indices@).len(),
        ensures
            mapping.encodes(indices@),
            mapping.layout_spec() matches DenseLayout::Runs(r) && r@ == runs_of(indices@),
    {
        let ghost idx = indices@;
        let n = indices.len();
        let mut runs: Vec<DenseIndexRun> = Vec::with_capacity(run_count);
        let mut k: usize = 0;
        while k < n
            invariant
                n == idx.len(),
                idx == indices@,
                k <= n,
                runs@ == runs_prefix(idx, k as nat),
            decreases n - k,
        {
            let dense = indices[k];
            let starts_new_run = if k == 0 {
                true
            } else {
                let prev = indices[k - 1];
                prev == usize::MAX || prev + 1 != dense
            };
            if starts_new_run {
                runs.push(DenseIndexRun { active_start: k, dense_start: dense });
            }
            k = k + 1;
        }
        proof {
            lemma_runs_prefix(idx, n as nat);
            lemma_runs_sorted(idx);
        }
        let boxed = runs_into_boxed(runs);
        let mapping = DenseIndexMapping { layout: DenseLayout::Runs(boxed) };
        proof {
            reveal(DenseIndexMapping::dense_spec);
            reveal(DenseIndexMapping::active_spec);
            assert forall|a: usize| #[trigger]
                mapping.dense_spec(a, n) == (if a < n {
                    Some(idx[a as int])
                } else {
                    None
                }) by {
                lemma_runs_dense(idx, a);
            }
            assert forall|d: usize| #[trigger]
                mapping.active_spec(d, n) == first_position(idx, d) by {
                lemma_runs_active(idx, d);
            }
        }
        mapping
    }

    fn explicit(indices: &[usize]) -> (mapping: Self)
        ensures
            mapping.encodes(indices@),
            mapping.layout_spec() matches DenseLayout::Explicit(v) && v@ == indices@,
    {
        let _n = indices.len();
        let boxed = indices_into_boxed(copy_indices(indices));
        proof {
            reveal(DenseIndexMapping::dense_spec);
            reveal(DenseIndexMapping::active_spec);
        }
        DenseIndexMapping { layout: DenseLayout::Explicit(boxed) }
    }

    /// The encoding in use.
    pub fn layout(&self) -> (layout: &DenseLayout)
        ensures
            *layout == self.layout_spec(),
    {
        &self.layout
    }

    /// Dense offset of the active offset `active_offset`, for an array with
    /// `active_len` active slots.
    pub fn dense_offset(&self, active_offset: usize, active_len: usize) -> (r: Option<usize>)
        ensures
            r == self.dense_spec(active_offset, active_len),
    {
        reveal(DenseIndexMapping::dense_spec);
        reveal(DenseIndexMapping::active_spec);
        proof {
            use_type_invariant(self);
        }
        match &self.layout {
            DenseLayout::Identity => {
                if active_offset < active_len {
                    Some(active_offset)
                } else {
                    None
                }
            },
            DenseLayout::Explicit(indices) => {
                if active_offset < indices.len() {
                    Some(indices[active_offset])
                } else {
                    None
                }
            },
            DenseLayout::Runs(runs) => {
                let runs: &[DenseIndexRun] = runs;
                let p = partition_point(runs, active_offset, false);
                if p == 0 {
                    return None;
                }
                let j = p - 1;
                proof {
                    lemma_run_for_active(runs@, active_offset, j as int);
                }
                let run = runs[j];
                let end = if p < runs.len() {
                    runs[p].active_start
                } else {
                    active_len
                };
                if end < run.active_start {
                    return None;
                }
                let run_len = end - run.active_start;
                let delta = active_offset - run.active_start;
                if delta < run_len {
                    run.dense_start.checked_add(delta)
                } else {
                    None
                }
            },
        }
    }

    /// Active offset of the dense offset `dense_offset`, for an array with
    /// `active_len` active slots.
    pub fn active_offset(&self, dense_offset: usize, active_len: usize) -> (r: Option<usize>)
        ensures
            r == self.active_spec(dense_offset, active_len),
    {
        reveal(DenseIndexMapping::dense_spec);
        reveal(DenseIndexMapping::active_spec);
        proof {
            use_type_invariant(self);
        }
        match &self.layout {
            DenseLayout::Identity => {
                if dense_offset < active_len {
                    Some(dense_offset)
                } else {
                    None
                }
            },
            DenseLayout::Explicit(indices) => position_of(indices, dense_offset),
            DenseLayout::Runs(runs) => {
                let runs: &[DenseIndexRun] = runs;
                let p = partition_point(runs, dense_offset, true);
                if p == 0 {
                    return None;
                }
                let j = p - 1;
                proof {
                    lemma_run_for_dense(runs@, dense_offset, j as int);
                }
                let run = runs[j];
                let end = if p < runs.len() {
                    runs[p].active_start
                } else {
                    active_len
                };
                if end < run.active_start {
                    return None;
                }
                let run_len = end - run.active_start;
                let delta = dense_offset - run.dense_start;
                if delta < run_len {
                    run.active_start.checked_add(delta)
                } else {
                    None
                }
            },
        }
    }

    /// Bytes held by the encoding beyond the mapping header.
    pub fn payload_bytes(&self) -> (bytes: usize)
        requires
            match self.layout_spec() {
                DenseLayout::Identity => true,
                DenseLayout::Runs(r) => r@.len() * vstd::layout::size_of::<DenseIndexRun>()
                    <= usize::MAX,
                DenseLayout::Explicit(v) => v@.len() * vstd::layout::size_of::<usize>()
                    <= usize::MAX,
            },
        ensures
            bytes == match self.layout_spec() {
                DenseLayout::Identity => 0,
                DenseLayout::Runs(r) => r@.len() * vstd::layout::size_of::<DenseIndexRun>(),
                DenseLayout::Explicit(v) => v@.len() * vstd::layout::size_of::<usize>(),
            },
    {
        match &self.layout {
            DenseLayout::Identity => 0,
            DenseLayout::Runs(runs) => runs.len() * core::mem::size_of::<DenseIndexRun>(),
            DenseLayout::Explicit(indices) => indices.len() * core::mem::size_of::<usize>(),
        }
    }
}

} // verus!
