//! Column-density statistics of a constraint matrix: how many columns fall
//! in each range of nonzero counts, the extremes, and the densest columns.

use vstd::prelude::*;

verus! {

/// Number of ranges the nonzero count of a column is sorted into.
pub const NNZ_BUCKETS: usize = 10;

/// The range a column with `nnz` nonzeros falls in: exactly 0, 1 or 2,
/// then at most 5, 10, 50, 100, 500, 1000, and above 1000.
pub open spec fn bucket_of(nnz: usize) -> nat {
    if nnz == 0 {
        0
    } else if nnz == 1 {
        1
    } else if nnz == 2 {
        2
    } else if nnz <= 5 {
        3
    } else if nnz <= 10 {
        4
    } else if nnz <= 50 {
        5
    } else if nnz <= 100 {
        6
    } else if nnz <= 500 {
        7
    } else if nnz <= 1000 {
        8
    } else {
        9
    }
}

/// The name of each range.
pub open spec fn bucket_label_spec(bucket: nat) -> Seq<char> {
    if bucket == 0 {
        "eq_0"@
    } else if bucket == 1 {
        "eq_1"@
    } else if bucket == 2 {
        "eq_2"@
    } else if bucket == 3 {
        "le_5"@
    } else if bucket == 4 {
        "le_10"@
    } else if bucket == 5 {
        "le_50"@
    } else if bucket == 6 {
        "le_100"@
    } else if bucket == 7 {
        "le_500"@
    } else if bucket == 8 {
        "le_1000"@
    } else {
        "gt_1000"@
    }
}

/// The name of range `bucket`.
pub fn bucket_label(bucket: usize) -> (label: &'static str)
    requires
        bucket < NNZ_BUCKETS,
    ensures
        label@ == bucket_label_spec(bucket as nat),
{
    if bucket == 0 {
        "eq_0"
    } else if bucket == 1 {
        "eq_1"
    } else if bucket == 2 {
        "eq_2"
    } else if bucket == 3 {
        "le_5"
    } else if bucket == 4 {
        "le_10"
    } else if bucket == 5 {
        "le_50"
    } else if bucket == 6 {
        "le_100"
    } else if bucket == 7 {
        "le_500"
    } else if bucket == 8 {
        "le_1000"
    } else {
        "gt_1000"
    }
}

fn bucket_index(nnz: usize) -> (b: usize)
    ensures
        b == bucket_of(nnz),
        b < NNZ_BUCKETS,
{
    if nnz == 0 {
        0
    } else if nnz == 1 {
        1
    } else if nnz == 2 {
        2
    } else if nnz <= 5 {
        3
    } else if nnz <= 10 {
        4
    } else if nnz <= 50 {
        5
    } else if nnz <= 100 {
        6
    } else if nnz <= 500 {
        7
    } else if nnz <= 1000 {
        8
    } else {
        9
    }
}

// ----- statistics over columns, each a (variable id, nonzero count) pair -----

pub open spec fn bucket_count(columns: Seq<(u32, usize)>, bucket: nat) -> nat
    decreases columns.len(),
{
    if columns.len() == 0 {
        0
    } else {
        bucket_count(columns.drop_last(), bucket) + if bucket_of(columns.last().1) == bucket {
            1nat
        } else {
            0nat
        }
    }
}

pub open spec fn dense_count(columns: Seq<(u32, usize)>, threshold: usize) -> nat
    decreases columns.len(),
{
    if columns.len() == 0 {
        0
    } else {
        dense_count(columns.drop_last(), threshold) + if columns.last().1 >= threshold {
            1nat
        } else {
            0nat
        }
    }
}

pub open spec fn nnz_total(columns: Seq<(u32, usize)>) -> nat
    decreases columns.len(),
{
    if columns.len() == 0 {
        0
    } else {
        nnz_total(columns.drop_last()) + columns.last().1 as nat
    }
}

pub open spec fn max_nnz(columns: Seq<(u32, usize)>) -> nat
    decreases columns.len(),
{
    if columns.len() == 0 {
        0
    } else {
        let prev = max_nnz(columns.drop_last());
        if columns.last().1 > prev {
            columns.last().1 as nat
        } else {
            prev
        }
    }
}

pub open spec fn min_nonzero_nnz(columns: Seq<(u32, usize)>) -> Option<usize>
    decreases columns.len(),
{
    if columns.len() == 0 {
        None
    } else {
        let prev = min_nonzero_nnz(columns.drop_last());
        let nnz = columns.last().1;
        if nnz == 0 {
            prev
        } else {
            match prev {
                Some(m) => if nnz < m {
                    Some(nnz)
                } else {
                    Some(m)
                },
                None => Some(nnz),
            }
        }
    }
}

/// The position of the first candidate with the fewest nonzeros.
pub open spec fn first_min_position(cands: Seq<(u32, usize)>) -> int
    decreases cands.len(),
{
    if cands.len() <= 1 {
        0
    } else {
        let prev = first_min_position(cands.drop_last());
        if cands.last().1 < cands[prev].1 {
            cands.len() - 1
        } else {
            prev
        }
    }
}

/// The candidates for the densest columns after seeing `column`: it joins
/// while fewer than `top_n` are kept, and afterwards replaces the first
/// candidate with the fewest nonzeros when it has strictly more.
pub open spec fn top_step(cands: Seq<(u32, usize)>, column: (u32, usize), top_n: usize) -> Seq<
    (u32, usize),
> {
    if top_n == 0 {
        cands
    } else if cands.len() < top_n {
        cands.push(column)
    } else if column.1 > cands[first_min_position(cands)].1 {
        cands.update(first_min_position(cands), column)
    } else {
        cands
    }
}

pub open spec fn top_candidates(columns: Seq<(u32, usize)>, top_n: usize) -> Seq<(u32, usize)>
    decreases columns.len(),
{
    if columns.len() == 0 {
        Seq::empty()
    } else {
        top_step(top_candidates(columns.drop_last(), top_n), columns.last(), top_n)
    }
}

/// Whether column `a` is listed before column `b`: more nonzeros first,
/// then the smaller variable id.
pub open spec fn ranks_before(a: (u32, usize), b: (u32, usize)) -> bool {
    a.1 > b.1 || (a.1 == b.1 && a.0 < b.0)
}

pub open spec fn sorted_by_rank(s: Seq<(u32, usize)>) -> bool {
    forall|i: int, j: int| 0 <= i < j < s.len() ==> !ranks_before(s[j], s[i])
}

/// Statistics of the nonzero counts of the columns of a matrix.
#[derive(Debug)]
pub struct ColumnProfile {
    /// The number of nonzeros in all columns, saturating at `usize::MAX`.
    pub num_coefficients: usize,
    pub max_column_nnz: usize,
    /// The fewest nonzeros of a column that has any.
    pub min_nonzero_column_nnz: Option<usize>,
    /// The number of columns with at least the dense threshold of nonzeros.
    pub dense_columns: usize,
    /// The number of columns in each range, in the order of `bucket_of`.
    pub buckets: Vec<usize>,
    /// The densest columns, as (variable id, nonzeros), densest first.
    pub top_columns: Vec<(u32, usize)>,
}

fn first_min_index(cands: &Vec<(u32, usize)>) -> (i: usize)
    requires
        cands@.len() > 0,
    ensures
        i == first_min_position(cands@),
        i < cands@.len(),
{
    let mut best: usize = 0;
    let mut k: usize = 1;
    while k < cands.len()
        invariant
            1 <= k <= cands@.len(),
            best == first_min_position(cands@.take(k as int)),
            best < k,
        decreases cands@.len() - k,
    {
        proof {
            assert(cands@.take(k + 1).drop_last() =~= cands@.take(k as int));
            lemma_first_min_in_prefix(cands@.take(k as int));
            assert(cands@.take(k + 1)[best as int] == cands@[best as int]);
        }
        if cands[k].1 < cands[best].1 {
            best = k;
        }
        k = k + 1;
    }
    proof {
        assert(cands@.take(k as int) =~= cands@);
    }
    best
}

proof fn lemma_first_min_in_prefix(cands: Seq<(u32, usize)>)
    ensures
        cands.len() > 0 ==> 0 <= first_min_position(cands) < cands.len(),
    decreases cands.len(),
{
    if cands.len() > 1 {
        lemma_first_min_in_prefix(cands.drop_last());
    }
}

/// Sorts columns densest first, then by variable id.
pub fn sort_by_rank(columns: Vec<(u32, usize)>) -> (sorted: Vec<(u32, usize)>)
    ensures
        sorted_by_rank(sorted@),
        sorted@.to_multiset() == columns@.to_multiset(),
        sorted@.len() == columns@.len(),
{
    let mut sorted: Vec<(u32, usize)> = Vec::new();
    let mut k: usize = 0;
    assert(sorted@ =~= columns@.take(0));
    while k < columns.len()
        invariant
            k <= columns@.len(),
            sorted_by_rank(sorted@),
            sorted@.to_multiset() == columns@.take(k as int).to_multiset(),
            sorted@.len() == k,
        decreases columns@.len() - k,
    {
        let item = columns[k];
        let mut pos: usize = 0;
        while pos < sorted.len() && !(item.1 > sorted[pos].1 || (item.1 == sorted[pos].1 && item.0
            < sorted[pos].0))
            invariant
                pos <= sorted@.len(),
                forall|j: int| 0 <= j < pos ==> !ranks_before(item, #[trigger] sorted@[j]),
            decreases sorted@.len() - pos,
        {
            pos = pos + 1;
        }
        let ghost before = sorted@;
        sorted.insert(pos, item);
        proof {
            assert(sorted@ == before.insert(pos as int, item));
            vstd::seq_lib::to_multiset_insert(before, pos as int, item);
            vstd::seq_lib::to_multiset_build(columns@.take(k as int), item);
            assert(columns@.take(k + 1) =~= columns@.take(k as int).push(item));
            assert(columns@.take(k + 1).to_multiset() == columns@.take(k as int).to_multiset().insert(
                item,
            ));
            assert forall|i: int, j: int| 0 <= i < j < sorted@.len() implies !ranks_before(
                sorted@[j],
                sorted@[i],
            ) by {
                if j < pos {
                    assert(sorted@[i] == before[i] && sorted@[j] == before[j]);
                } else if j == pos {
                    assert(sorted@[i] == before[i]);
                    assert(!ranks_before(item, before[i]));
                } else if i == pos {
                    assert(sorted@[j] == before[j - 1]);
                    assert(ranks_before(item, before[pos as int]));
                    assert(!ranks_before(before[j - 1], before[pos as int]) || j - 1 == pos);
                } else if i < pos {
                    assert(sorted@[i] == before[i] && sorted@[j] == before[j - 1]);
                } else {
                    assert(sorted@[i] == before[i - 1] && sorted@[j] == before[j - 1]);
                }
            }
        }
        k = k + 1;
    }
    proof {
        assert(columns@.take(k as int) =~= columns@);
    }
    sorted
}

/// The statistics of `columns`, listing at most `top_n` densest columns
/// and counting as dense those with at least `dense_threshold` nonzeros.
pub fn column_profile(columns: &[(u32, usize)], top_n: usize, dense_threshold: usize) -> (profile:
    ColumnProfile)
    ensures
        profile.num_coefficients == (if nnz_total(columns@) <= usize::MAX {
            nnz_total(columns@)
        } else {
            usize::MAX as nat
        }),
        profile.max_column_nnz == max_nnz(columns@),
        profile.min_nonzero_column_nnz == min_nonzero_nnz(columns@),
        profile.dense_columns == dense_count(columns@, dense_threshold),
        profile.buckets@.len() == NNZ_BUCKETS,
        forall|b: int| 0 <= b < NNZ_BUCKETS ==> #[trigger] profile.buckets@[b] == bucket_count(columns@, b as nat),
        sorted_by_rank(profile.top_columns@),
        profile.top_columns@.to_multiset() == top_candidates(columns@, top_n).to_multiset(),
{
    let mut buckets: Vec<usize> = Vec::new();
    let mut b: usize = 0;
    while b < NNZ_BUCKETS
        invariant
            b <= NNZ_BUCKETS,
            buckets@.len() == b,
            forall|j: int| 0 <= j < b ==> buckets@[j] == 0,
        decreases NNZ_BUCKETS - b,
    {
        buckets.push(0);
        b = b + 1;
    }
    let mut total: usize = 0;
    let mut max_column_nnz: usize = 0;
    let mut min_nonzero: Option<usize> = None;
    let mut dense_columns: usize = 0;
    let mut top: Vec<(u32, usize)> = Vec::new();
    let mut i: usize = 0;
    while i < columns.len()
        invariant
            i <= columns@.len(),
            total == (if nnz_total(columns@.take(i as int)) <= usize::MAX {
                nnz_total(columns@.take(i as int))
            } else {
                usize::MAX as nat
            }),
            max_column_nnz == max_nnz(columns@.take(i as int)),
            min_nonzero == min_nonzero_nnz(columns@.take(i as int)),
            dense_columns == dense_count(columns@.take(i as int), dense_threshold),
            dense_columns <= i,
            buckets@.len() == NNZ_BUCKETS,
            forall|j: int| 0 <= j < NNZ_BUCKETS ==> #[trigger] buckets@[j] == bucket_count(columns@.take(i as int), j as nat),
            forall|j: int| 0 <= j < NNZ_BUCKETS ==> #[trigger] buckets@[j] <= i,
            top@ == top_candidates(columns@.take(i as int), top_n),
        decreases columns@.len() - i,
    {
        let (variable_id, nnz) = columns[i];
        let ghost prefix = columns@.take(i as int);
        proof {
            assert(columns@.take(i + 1).drop_last() =~= prefix);
            assert(columns@.take(i + 1).last() == (variable_id, nnz));
        }
        total = total.saturating_add(nnz);
        if nnz > max_column_nnz {
            max_column_nnz = nnz;
        }
        if nnz > 0 {
            min_nonzero = match min_nonzero {
                Some(m) => if nnz < m {
                    Some(nnz)
                } else {
                    Some(m)
                },
                None => Some(nnz),
            };
        }
        if nnz >= dense_threshold {
            dense_columns = dense_columns + 1;
        }
        let bucket = bucket_index(nnz);
        let count = buckets[bucket];
        buckets.set(bucket, count + 1);
        if top_n > 0 {
            if top.len() < top_n {
                top.push((variable_id, nnz));
            } else {
                let min_idx = first_min_index(&top);
                if nnz > top[min_idx].1 {
                    top.set(min_idx, (variable_id, nnz));
                }
            }
        }
        i = i + 1;
        proof {
            assert forall|j: int| 0 <= j < NNZ_BUCKETS implies #[trigger] buckets@[j] == bucket_count(
                columns@.take(i as int),
                j as nat,
            ) by {}
        }
    }
    proof {
        assert(columns@.take(i as int) =~= columns@);
    }
    let top_columns = sort_by_rank(top);
    ColumnProfile {
        num_coefficients: total,
        max_column_nnz,
        min_nonzero_column_nnz: min_nonzero,
        dense_columns,
        buckets,
        top_columns,
    }
}


// ----- laws -----

/// The columns counted in the first `k` ranges.
pub open spec fn buckets_sum(columns: Seq<(u32, usize)>, k: nat) -> nat
    decreases k,
{
    if k == 0 {
        0
    } else {
        buckets_sum(columns, (k - 1) as nat) + bucket_count(columns, (k - 1) as nat)
    }
}

proof fn lemma_buckets_sum_step(columns: Seq<(u32, usize)>, k: nat)
    requires
        columns.len() > 0,
    ensures
        buckets_sum(columns, k) == buckets_sum(columns.drop_last(), k) + if bucket_of(
            columns.last().1,
        ) < k {
            1nat
        } else {
            0nat
        },
    decreases k,
{
    if k > 0 {
        lemma_buckets_sum_step(columns, (k - 1) as nat);
    }
}

proof fn lemma_buckets_sum_empty(columns: Seq<(u32, usize)>, k: nat)
    requires
        columns.len() == 0,
    ensures
        buckets_sum(columns, k) == 0,
    decreases k,
{
    if k > 0 {
        lemma_buckets_sum_empty(columns, (k - 1) as nat);
    }
}

/// A column is counted under the range whose label bounds its nonzeros:
/// `eq_0`, `eq_1` and `eq_2` for exactly 0, 1 and 2, `le_5` for 3 to 5,
/// `le_10` for 6 to 10, `le_50` for 11 to 50, `le_100` for 51 to 100,
/// `le_500` for 101 to 500, `le_1000` for 501 to 1000, `gt_1000` above.
pub proof fn lemma_bucket_labels_bound_nnz(nnz: usize)
    ensures
        bucket_of(nnz) < NNZ_BUCKETS,
        bucket_label_spec(bucket_of(nnz)) == "eq_0"@ <==> nnz == 0,
        bucket_label_spec(bucket_of(nnz)) == "eq_1"@ <==> nnz == 1,
        bucket_label_spec(bucket_of(nnz)) == "eq_2"@ <==> nnz == 2,
        bucket_label_spec(bucket_of(nnz)) == "le_5"@ <==> 3 <= nnz <= 5,
        bucket_label_spec(bucket_of(nnz)) == "le_10"@ <==> 6 <= nnz <= 10,
        bucket_label_spec(bucket_of(nnz)) == "le_50"@ <==> 11 <= nnz <= 50,
        bucket_label_spec(bucket_of(nnz)) == "le_100"@ <==> 51 <= nnz <= 100,
        bucket_label_spec(bucket_of(nnz)) == "le_500"@ <==> 101 <= nnz <= 500,
        bucket_label_spec(bucket_of(nnz)) == "le_1000"@ <==> 501 <= nnz <= 1000,
        bucket_label_spec(bucket_of(nnz)) == "gt_1000"@ <==> nnz > 1000,
{
    reveal_strlit("eq_0");
    reveal_strlit("eq_1");
    reveal_strlit("eq_2");
    reveal_strlit("le_5");
    reveal_strlit("le_10");
    reveal_strlit("le_50");
    reveal_strlit("le_100");
    reveal_strlit("le_500");
    reveal_strlit("le_1000");
    reveal_strlit("gt_1000");
    assert("eq_0"@[3] == '0' && "eq_1"@[3] == '1' && "eq_2"@[3] == '2' && "le_5"@[3] == '5');
    assert("le_10"@[3] == '1' && "le_10"@.len() == 5 && "le_50"@[3] == '5' && "le_50"@.len() == 5);
    assert("le_100"@[4] == '0' && "le_100"@.len() == 6 && "le_500"@[3] == '5' && "le_500"@.len() == 6);
    assert("le_1000"@.len() == 7 && "gt_1000"@[0] == 'g' && "le_5"@.len() == 4 && "eq_0"@[0] == 'e');
    assert("le_100"@[3] == '1' && "le_1000"@[0] == 'l' && "le_5"@[0] == 'l');
}

/// The count of a range is the number of columns whose nonzeros fall in
/// it, and the dense count the number of columns with at least the
/// threshold of nonzeros.
pub proof fn lemma_counts_are_filters(columns: Seq<(u32, usize)>, bucket: nat, threshold: usize)
    ensures
        bucket_count(columns, bucket) == columns.filter(
            |c: (u32, usize)| bucket_of(c.1) == bucket,
        ).len(),
        dense_count(columns, threshold) == columns.filter(|c: (u32, usize)| c.1 >= threshold).len(),
    decreases columns.len(),
{
    reveal(Seq::filter);
    if columns.len() > 0 {
        lemma_counts_are_filters(columns.drop_last(), bucket, threshold);
    }
}

/// The largest column count is at least every column's count and is the
/// count of some column (0 for no columns).
pub proof fn lemma_max_nnz_is_largest(columns: Seq<(u32, usize)>)
    ensures
        forall|i: int| 0 <= i < columns.len() ==> #[trigger] columns[i].1 <= max_nnz(columns),
        columns.len() == 0 ==> max_nnz(columns) == 0,
        columns.len() > 0 ==> exists|i: int|
            0 <= i < columns.len() && #[trigger] columns[i].1 == max_nnz(columns),
    decreases columns.len(),
{
    if columns.len() > 0 {
        let prev = columns.drop_last();
        lemma_max_nnz_is_largest(prev);
        assert forall|i: int| 0 <= i < columns.len() implies #[trigger] columns[i].1 <= max_nnz(
            columns,
        ) by {
            if i < prev.len() {
                assert(columns[i] == prev[i]);
            }
        }
        if columns.last().1 > max_nnz(prev) {
            assert(columns[columns.len() - 1].1 == max_nnz(columns));
        } else if prev.len() > 0 {
            let i = choose|i: int| 0 <= i < prev.len() && #[trigger] prev[i].1 == max_nnz(prev);
            assert(columns[i] == prev[i]);
        } else {
            assert(columns[0].1 == max_nnz(columns));
        }
    }
}

/// The fewest nonzeros of a non-empty column is at most every non-zero
/// count and is the count of some column; there is none exactly when every
/// column is empty.
pub proof fn lemma_min_nonzero_is_smallest(columns: Seq<(u32, usize)>)
    ensures
        min_nonzero_nnz(columns) is None <==> forall|i: int|
            0 <= i < columns.len() ==> #[trigger] columns[i].1 == 0,
        min_nonzero_nnz(columns) matches Some(m) ==> m > 0 && (forall|i: int|
            0 <= i < columns.len() && columns[i].1 > 0 ==> m <= #[trigger] columns[i].1) && exists|
            i: int,
        | 0 <= i < columns.len() && #[trigger] columns[i].1 == m,
    decreases columns.len(),
{
    if columns.len() > 0 {
        let prev = columns.drop_last();
        lemma_min_nonzero_is_smallest(prev);
        assert forall|i: int| 0 <= i < prev.len() implies prev[i] == columns[i] by {}
        let last = columns.len() - 1;
        match min_nonzero_nnz(prev) {
            Some(m) => {
                let i = choose|i: int| 0 <= i < prev.len() && #[trigger] prev[i].1 == m;
                assert(columns[i].1 == m);
                assert(columns[i].1 != 0);
            },
            None => {
                if columns[last].1 == 0 {
                    assert forall|i: int| 0 <= i < columns.len() implies #[trigger] columns[i].1
                        == 0 by {
                        if i < prev.len() {
                            assert(prev[i].1 == 0);
                        }
                    }
                }
            },
        }
    }
}

/// Every column falls in exactly one range: the range counts add up to the
/// number of columns.
pub proof fn lemma_buckets_cover_columns(columns: Seq<(u32, usize)>)
    ensures
        buckets_sum(columns, NNZ_BUCKETS as nat) == columns.len(),
    decreases columns.len(),
{
    if columns.len() == 0 {
        lemma_buckets_sum_empty(columns, NNZ_BUCKETS as nat);
    } else {
        lemma_buckets_cover_columns(columns.drop_last());
        lemma_buckets_sum_step(columns, NNZ_BUCKETS as nat);
        assert(bucket_of(columns.last().1) < NNZ_BUCKETS);
    }
}

proof fn lemma_first_min_is_min(cands: Seq<(u32, usize)>)
    requires
        cands.len() > 0,
    ensures
        0 <= first_min_position(cands) < cands.len(),
        forall|j: int| 0 <= j < cands.len() ==> cands[first_min_position(cands)].1 <= #[trigger] cands[j].1,
    decreases cands.len(),
{
    if cands.len() > 1 {
        let prev = cands.drop_last();
        lemma_first_min_is_min(prev);
        assert forall|j: int| 0 <= j < cands.len() implies cands[first_min_position(cands)].1
            <= #[trigger] cands[j].1 by {
            if j < cands.len() - 1 {
                assert(prev[j] == cands[j]);
            }
        }
    }
}

/// The densest-column list holds `top_n` columns, or all of them when
/// there are fewer; each is one of the columns; and every column left off
/// the list has no more nonzeros than any column on it.
pub proof fn lemma_top_candidates(columns: Seq<(u32, usize)>, top_n: usize)
    ensures
        top_candidates(columns, top_n).len() == if columns.len() < top_n {
            columns.len()
        } else {
            top_n as nat
        },
        forall|k: int|
            0 <= k < top_candidates(columns, top_n).len() ==> columns.contains(
                #[trigger] top_candidates(columns, top_n)[k],
            ),
        forall|i: int, k: int|
            0 <= i < columns.len() && 0 <= k < top_candidates(columns, top_n).len()
                && !top_candidates(columns, top_n).contains(#[trigger] columns[i]) ==> columns[i].1
                <= #[trigger] top_candidates(columns, top_n)[k].1,
    decreases columns.len(),
{
    if columns.len() == 0 {
        return;
    }
    let prev = columns.drop_last();
    let x = columns.last();
    lemma_top_candidates(prev, top_n);
    let before = top_candidates(prev, top_n);
    let after = top_candidates(columns, top_n);
    assert(after == top_step(before, x, top_n));
    if before.len() > 0 {
        lemma_first_min_is_min(before);
    }
    assert forall|k: int| 0 <= k < after.len() implies columns.contains(#[trigger] after[k]) by {
        if top_n > 0 && before.len() < top_n && k == before.len() {
            assert(columns[columns.len() - 1] == after[k]);
        } else if top_n > 0 && before.len() >= top_n && x.1 > before[first_min_position(before)].1
            && k == first_min_position(before) {
            assert(columns[columns.len() - 1] == after[k]);
        } else {
            assert(after[k] == before[k]);
            let i = choose|i: int| 0 <= i < prev.len() && prev[i] == before[k];
            assert(columns[i] == prev[i]);
        }
    }
    if top_n == 0 {
        return;
    }
    if before.len() < top_n {
        // nothing is ever left off while the list is filling
        assert(before.len() == prev.len());
        assert forall|i: int, k: int|
            0 <= i < columns.len() && 0 <= k < after.len() && !after.contains(#[trigger] columns[i])
                implies columns[i].1 <= #[trigger] after[k].1 by {
            if i < columns.len() - 1 {
                assert(prev[i] == columns[i]);
                assert(!before.contains(prev[i])) by {
                    if before.contains(prev[i]) {
                        let t = choose|t: int| 0 <= t < before.len() && before[t] == prev[i];
                        assert(after[t] == before[t]);
                    }
                }
                assert(prev.contains(prev[i]));
                lemma_fill_contains(prev, top_n, i);
            } else {
                assert(after[before.len() as int] == x);
            }
        }
        return;
    }
    lemma_first_min_is_min(before);
    let m = first_min_position(before);
    if x.1 > before[m].1 {
        assert forall|i: int, k: int|
            0 <= i < columns.len() && 0 <= k < after.len() && !after.contains(#[trigger] columns[i])
                implies columns[i].1 <= #[trigger] after[k].1 by {
            if k == m {
                assert(after[k] == x);
            } else {
                assert(after[k] == before[k]);
            }
            if i < columns.len() - 1 {
                assert(prev[i] == columns[i]);
                if before.contains(columns[i]) {
                    let t = choose|t: int| 0 <= t < before.len() && before[t] == columns[i];
                    if t != m {
                        assert(after[t] == before[t]);
                    }
                    assert(before[m].1 <= before[k].1);
                } else {
                    assert(columns[i].1 <= before[k].1);
                    assert(columns[i].1 <= before[m].1);
                }
            } else {
                assert(after[m] == x);
            }
        }
    } else {
        assert forall|i: int, k: int|
            0 <= i < columns.len() && 0 <= k < after.len() && !after.contains(#[trigger] columns[i])
                implies columns[i].1 <= #[trigger] after[k].1 by {
            if i < columns.len() - 1 {
                assert(prev[i] == columns[i]);
            } else {
                assert(before[m].1 <= before[k].1);
            }
        }
    }
}

/// While the list is filling, it holds every column seen.
proof fn lemma_fill_contains(columns: Seq<(u32, usize)>, top_n: usize, i: int)
    requires
        top_n > 0,
        top_candidates(columns, top_n).len() < top_n,
        0 <= i < columns.len(),
    ensures
        top_candidates(columns, top_n).contains(columns[i]),
        top_candidates(columns, top_n).len() == columns.len(),
    decreases columns.len(),
{
    let prev = columns.drop_last();
    let before = top_candidates(prev, top_n);
    lemma_top_len_grows(columns, top_n);
    assert(top_candidates(columns, top_n) == top_step(before, columns.last(), top_n));
    assert(before.len() < top_n);
    let after = top_candidates(columns, top_n);
    if prev.len() > 0 {
        lemma_fill_len(prev, top_n);
    }
    if i == columns.len() - 1 {
        assert(after[before.len() as int] == columns[i]);
    } else {
        lemma_fill_contains(prev, top_n, i);
        assert(prev[i] == columns[i]);
        let t = choose|t: int| 0 <= t < before.len() && before[t] == prev[i];
        assert(after[t] == before[t]);
    }
}

proof fn lemma_top_len_grows(columns: Seq<(u32, usize)>, top_n: usize)
    ensures
        columns.len() > 0 ==> top_candidates(columns.drop_last(), top_n).len() <= top_candidates(
            columns,
            top_n,
        ).len(),
{
    if columns.len() > 0 {
        let before = top_candidates(columns.drop_last(), top_n);
        if before.len() > 0 {
            lemma_first_min_is_min(before);
        }
    }
}

proof fn lemma_fill_len(columns: Seq<(u32, usize)>, top_n: usize)
    requires
        top_n > 0,
        top_candidates(columns, top_n).len() < top_n,
    ensures
        top_candidates(columns, top_n).len() == columns.len(),
    decreases columns.len(),
{
    if columns.len() > 0 {
        let prev = columns.drop_last();
        lemma_top_len_grows(columns, top_n);
        lemma_fill_len(prev, top_n);
    }
}

} // verus!
