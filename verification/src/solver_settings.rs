//! Solver settings: the options a solver is configured with, their
//! validation, per-solve overrides, updates by name, and the options each
//! backend refuses.
//!
//! Real-valued options (tolerance, time limit, MIP gap) are held as the
//! IEEE-754 bit patterns of their `f64` values, which is all their
//! validation reads.

use vstd::prelude::*;
use crate::text::{
    key_less, lemma_key_less_asymmetric, lemma_key_less_total, lemma_key_less_transitive, str_eq,
    str_less,
};

verus! {

/// The LP algorithm a solver is asked to use.
#[derive(Debug, Clone, Copy, PartialEq, Eq, Structural)]
pub enum LpAlgorithm {
    Automatic,
    PrimalSimplex,
    DualSimplex,
    Barrier,
    BarrierWithCrossover,
    PrimalDualFirstOrder,
    Concurrent,
}

/// The real-valued settings, named in error messages.
#[derive(Debug, Clone, Copy, PartialEq, Eq, Structural)]
pub enum RealSetting {
    Tolerance,
    TimeLimit,
    MipGap,
}

/// Why a solver configuration was refused.
#[derive(Debug, PartialEq, Eq)]
pub enum SolverSettingError {
    /// `threads` was zero.
    ZeroThreads,
    /// A real-valued setting was negative, infinite or not a number.
    NotNonNegativeFinite(RealSetting),
    /// The Xpress backend takes no verbosity.
    VerbosityUnsupportedByXpress,
    /// The IPOPT backend takes no LP algorithm.
    LpAlgorithmUnsupportedByIpopt,
    /// An update named no known setting.
    UnknownSetting(String),
}

// ----- real values by their bit patterns -----

/// Whether the `f64` with bit pattern `bits` is finite and not below zero:
/// its exponent is not all ones, and its sign is clear or its magnitude is
/// zero (`-0.0` is not below zero).
pub open spec fn non_negative_finite_bits(bits: u64) -> bool {
    &&& (bits >> 52u64) & 0x7ffu64 != 0x7ffu64
    &&& (bits >> 63u64 == 0 || bits & 0x7fff_ffff_ffff_ffffu64 == 0)
}

/// Checks that the `f64` with bit pattern `bits` is finite and `>= 0`.
pub fn is_non_negative_finite(bits: u64) -> (ok: bool)
    ensures
        ok == non_negative_finite_bits(bits),
{
    (bits >> 52u64) & 0x7ffu64 != 0x7ffu64 && (bits >> 63u64 == 0 || bits
        & 0x7fff_ffff_ffff_ffffu64 == 0)
}

// ----- solver parameters -----

/// The map that a list of (key, value) pairs stands for, later pairs
/// overriding earlier ones.
pub open spec fn pairs_map(entries: Seq<(String, String)>) -> Map<Seq<char>, Seq<char>>
    decreases entries.len(),
{
    if entries.len() == 0 {
        Map::empty()
    } else {
        pairs_map(entries.drop_last()).insert(entries.last().0@, entries.last().1@)
    }
}

pub open spec fn keys_distinct(entries: Seq<(String, String)>) -> bool {
    forall|i: int, j: int| 0 <= i < j < entries.len() ==> entries[i].0@ != entries[j].0@
}

/// Free-form backend parameters, a map from names to values.
#[derive(Debug)]
pub struct SolverParameters {
    entries: Vec<(String, String)>,
}

impl View for SolverParameters {
    type V = Map<Seq<char>, Seq<char>>;

    closed spec fn view(&self) -> Map<Seq<char>, Seq<char>> {
        pairs_map(self.entries@)
    }
}

proof fn lemma_pairs_map_domain(entries: Seq<(String, String)>)
    ensures
        forall|k: Seq<char>|
            pairs_map(entries).dom().contains(k) <==> exists|i: int|
                0 <= i < entries.len() && entries[i].0@ == k,
        pairs_map(entries).dom().finite(),
    decreases entries.len(),
{
    if entries.len() > 0 {
        let prev = entries.drop_last();
        lemma_pairs_map_domain(prev);
        assert forall|k: Seq<char>|
            pairs_map(entries).dom().contains(k) implies exists|i: int|
                0 <= i < entries.len() && entries[i].0@ == k by {
            if k != entries.last().0@ {
                let i = choose|i: int| 0 <= i < prev.len() && prev[i].0@ == k;
                assert(entries[i] == prev[i]);
            } else {
                assert(entries[entries.len() - 1].0@ == k);
            }
        }
        assert forall|k: Seq<char>|
            (exists|i: int| 0 <= i < entries.len() && entries[i].0@ == k) implies pairs_map(
            entries,
        ).dom().contains(k) by {
            let i = choose|i: int| 0 <= i < entries.len() && entries[i].0@ == k;
            if i < entries.len() - 1 {
                assert(prev[i] == entries[i]);
            }
        }
    }
}

/// With distinct keys, the value of a key is that of its pair.
proof fn lemma_pairs_map_value(entries: Seq<(String, String)>, i: int)
    requires
        keys_distinct(entries),
        0 <= i < entries.len(),
    ensures
        pairs_map(entries).dom().contains(entries[i].0@),
        pairs_map(entries)[entries[i].0@] == entries[i].1@,
    decreases entries.len(),
{
    let prev = entries.drop_last();
    if i < entries.len() - 1 {
        lemma_pairs_map_value(prev, i);
        assert(prev[i] == entries[i]);
    }
}

/// Replacing the value of the pair at `i` updates that key.
proof fn lemma_pairs_map_update(entries: Seq<(String, String)>, i: int, pair: (String, String))
    requires
        keys_distinct(entries),
        0 <= i < entries.len(),
        pair.0@ == entries[i].0@,
    ensures
        pairs_map(entries.update(i, pair)) == pairs_map(entries).insert(pair.0@, pair.1@),
    decreases entries.len(),
{
    let prev = entries.drop_last();
    if i == entries.len() - 1 {
        assert(entries.update(i, pair).drop_last() =~= prev);
        assert(pairs_map(entries.update(i, pair)) =~= pairs_map(entries).insert(pair.0@, pair.1@));
    } else {
        lemma_pairs_map_update(prev, i, pair);
        assert(entries.update(i, pair).drop_last() =~= prev.update(i, pair));
        assert(entries.update(i, pair).last() == entries.last());
        assert(entries.last().0@ != pair.0@);
        assert(pairs_map(entries.update(i, pair)) =~= pairs_map(entries).insert(pair.0@, pair.1@));
    }
}

/// Removing the pair at `i` removes its key.
proof fn lemma_pairs_map_remove(entries: Seq<(String, String)>, i: int)
    requires
        keys_distinct(entries),
        0 <= i < entries.len(),
    ensures
        pairs_map(entries.remove(i)) == pairs_map(entries).remove(entries[i].0@),
    decreases entries.len(),
{
    let prev = entries.drop_last();
    if i == entries.len() - 1 {
        assert(entries.remove(i) =~= prev);
        lemma_pairs_map_domain(prev);
        assert(!pairs_map(prev).dom().contains(entries[i].0@)) by {
            if pairs_map(prev).dom().contains(entries[i].0@) {
                let j = choose|j: int| 0 <= j < prev.len() && prev[j].0@ == entries[i].0@;
                assert(entries[j] == prev[j]);
            }
        }
        assert(pairs_map(entries.remove(i)) =~= pairs_map(entries).remove(entries[i].0@));
    } else {
        lemma_pairs_map_remove(prev, i);
        assert(entries.remove(i).drop_last() =~= prev.remove(i));
        assert(entries.remove(i).last() == entries.last());
        assert(entries.last().0@ != entries[i].0@);
        assert(pairs_map(entries.remove(i)) =~= pairs_map(entries).remove(entries[i].0@));
    }
}

/// The keys of `entries` strictly ascend.
pub open spec fn keys_ascending(entries: Seq<(String, String)>) -> bool {
    forall|i: int, j: int|
        0 <= i < j < entries.len() ==> key_less(#[trigger] entries[i].0@, #[trigger] entries[j].0@)
}

proof fn lemma_ascending_distinct(entries: Seq<(String, String)>)
    requires
        keys_ascending(entries),
    ensures
        keys_distinct(entries),
{
    assert forall|i: int, j: int| 0 <= i < j < entries.len() implies entries[i].0@
        != entries[j].0@ by {
        lemma_key_less_asymmetric(entries[i].0@, entries[j].0@);
    }
}

/// Inserting a pair with a key not yet present adds that key.
proof fn lemma_pairs_map_insert(entries: Seq<(String, String)>, pos: int, pair: (String, String))
    requires
        keys_distinct(entries),
        keys_distinct(entries.insert(pos, pair)),
        0 <= pos <= entries.len(),
    ensures
        pairs_map(entries.insert(pos, pair)) == pairs_map(entries).insert(pair.0@, pair.1@),
{
    let after = entries.insert(pos, pair);
    lemma_pairs_map_domain(entries);
    lemma_pairs_map_domain(after);
    assert forall|k: Seq<char>| #[trigger] pairs_map(after).dom().contains(k) <==> pairs_map(
        entries,
    ).insert(pair.0@, pair.1@).dom().contains(k) by {
        if pairs_map(after).dom().contains(k) {
            let i = choose|i: int| 0 <= i < after.len() && after[i].0@ == k;
            if i < pos {
                assert(after[i] == entries[i]);
            } else if i > pos {
                assert(after[i] == entries[i - 1]);
            }
        }
        if pairs_map(entries).dom().contains(k) {
            let i = choose|i: int| 0 <= i < entries.len() && entries[i].0@ == k;
            if i < pos {
                assert(after[i] == entries[i]);
            } else {
                assert(after[i + 1] == entries[i]);
            }
        }
        if k == pair.0@ {
            assert(after[pos] == pair);
        }
    }
    assert forall|k: Seq<char>| #[trigger] pairs_map(after).dom().contains(k) implies pairs_map(
        after,
    )[k] == pairs_map(entries).insert(pair.0@, pair.1@)[k] by {
        let i = choose|i: int| 0 <= i < after.len() && after[i].0@ == k;
        lemma_pairs_map_value(after, i);
        assert(after[pos] == pair);
        if i != pos {
            assert(k != pair.0@);
        }
        if i < pos {
            assert(after[i] == entries[i]);
            lemma_pairs_map_value(entries, i);
        } else if i > pos {
            assert(after[i] == entries[i - 1]);
            lemma_pairs_map_value(entries, i - 1);
        } else {
            assert(after[i] == pair);
        }
    }
    assert(pairs_map(after) =~= pairs_map(entries).insert(pair.0@, pair.1@));
}

impl SolverParameters {
    /// The keys are kept in ascending order, as an ordered map walks them.
    #[verifier::type_invariant]
    spec fn keys_in_order(&self) -> bool {
        keys_ascending(self.entries@)
    }

    /// No parameters.
    pub fn new() -> (params: Self)
        ensures
            params@ == Map::<Seq<char>, Seq<char>>::empty(),
    {
        SolverParameters { entries: Vec::new() }
    }

    /// The number of parameters.
    pub fn len(&self) -> (n: usize)
        ensures
            n == self@.len(),
    {
        proof {
            use_type_invariant(self);
            lemma_ascending_distinct(self.entries@);
            lemma_distinct_len(self.entries@);
        }
        self.entries.len()
    }

    /// Where `key` is, or where it would go: every key before that place
    /// comes before `key`, every key from it on after.
    fn locate(&self, key: &str) -> (found: Result<usize, usize>)
        ensures
            match found {
                Ok(i) => i < self.entries@.len() && self.entries@[i as int].0@ == key@,
                Err(pos) => pos <= self.entries@.len() && (forall|j: int|
                    0 <= j < pos ==> key_less(#[trigger] self.entries@[j].0@, key@)) && (forall|
                    j: int,
                | pos <= j < self.entries@.len() ==> key_less(key@, #[trigger] self.entries@[j].0@)),
            },
    {
        proof {
            use_type_invariant(self);
        }
        let mut pos: usize = 0;
        while pos < self.entries.len() && str_less(self.entries[pos].0.as_str(), key)
            invariant
                pos <= self.entries@.len(),
                forall|j: int| 0 <= j < pos ==> key_less(#[trigger] self.entries@[j].0@, key@),
            decreases self.entries@.len() - pos,
        {
            pos = pos + 1;
        }
        if pos < self.entries.len() && str_eq(self.entries[pos].0.as_str(), key) {
            return Ok(pos);
        }
        proof {
            if pos < self.entries@.len() {
                lemma_key_less_total(self.entries@[pos as int].0@, key@);
                assert forall|j: int| pos <= j < self.entries@.len() implies key_less(
                    key@,
                    #[trigger] self.entries@[j].0@,
                ) by {
                    if j > pos {
                        lemma_key_less_transitive(
                            key@,
                            self.entries@[pos as int].0@,
                            self.entries@[j].0@,
                        );
                    }
                }
            }
        }
        Err(pos)
    }

    /// The value of parameter `key`, if set.
    pub fn get(&self, key: &str) -> (value: Option<&String>)
        ensures
            match value {
                Some(v) => self@.dom().contains(key@) && self@[key@] == v@,
                None => !self@.dom().contains(key@),
            },
    {
        proof {
            use_type_invariant(self);
            lemma_ascending_distinct(self.entries@);
            lemma_pairs_map_domain(self.entries@);
        }
        match self.locate(key) {
            Ok(i) => {
                proof {
                    lemma_pairs_map_value(self.entries@, i as int);
                }
                Some(&self.entries[i].1)
            },
            Err(pos) => {
                proof {
                    assert forall|i: int| 0 <= i < self.entries@.len() implies self.entries@[i].0@
                        != key@ by {
                        lemma_key_less_asymmetric(self.entries@[i].0@, key@);
                    }
                }
                None
            },
        }
    }

    /// Sets parameter `key` to `value`, replacing a value it had.
    pub fn insert(&mut self, key: String, value: String)
        ensures
            final(self)@ == old(self)@.insert(key@, value@),
    {
        proof {
            use_type_invariant(&*self);
            lemma_ascending_distinct(self.entries@);
        }
        match self.locate(key.as_str()) {
            Ok(i) => {
                proof {
                    lemma_pairs_map_update(self.entries@, i as int, (key, value));
                    assert(keys_ascending(self.entries@.update(i as int, (key, value))));
                }
                let mut entries: Vec<(String, String)> = Vec::new();
                std::mem::swap(&mut entries, &mut self.entries);
                entries.set(i, (key, value));
                self.entries = entries;
            },
            Err(pos) => {
                let ghost before = self.entries@;
                proof {
                    let after = before.insert(pos as int, (key, value));
                    assert forall|i: int, j: int| 0 <= i < j < after.len() implies key_less(
                        #[trigger] after[i].0@,
                        #[trigger] after[j].0@,
                    ) by {
                        if j < pos {
                            assert(after[i] == before[i] && after[j] == before[j]);
                        } else if j == pos {
                            assert(after[i] == before[i]);
                        } else if i == pos {
                            assert(after[j] == before[j - 1]);
                        } else if i < pos {
                            assert(after[i] == before[i] && after[j] == before[j - 1]);
                        } else {
                            assert(after[i] == before[i - 1] && after[j] == before[j - 1]);
                        }
                    }
                    lemma_ascending_distinct(after);
                    lemma_pairs_map_insert(before, pos as int, (key, value));
                }
                let mut entries: Vec<(String, String)> = Vec::new();
                std::mem::swap(&mut entries, &mut self.entries);
                entries.insert(pos, (key, value));
                self.entries = entries;
            },
        }
    }

    /// Removes parameter `key`, if set.
    pub fn remove(&mut self, key: &str)
        ensures
            final(self)@ == old(self)@.remove(key@),
    {
        proof {
            use_type_invariant(&*self);
            lemma_ascending_distinct(self.entries@);
        }
        match self.locate(key) {
            Ok(i) => {
                proof {
                    lemma_pairs_map_remove(self.entries@, i as int);
                    let after = self.entries@.remove(i as int);
                    assert forall|a: int, b: int| 0 <= a < b < after.len() implies key_less(
                        #[trigger] after[a].0@,
                        #[trigger] after[b].0@,
                    ) by {
                        if b < i {
                            assert(after[a] == self.entries@[a] && after[b] == self.entries@[b]);
                        } else if a < i {
                            assert(after[a] == self.entries@[a] && after[b] == self.entries@[b + 1]);
                        } else {
                            assert(after[a] == self.entries@[a + 1] && after[b] == self.entries@[b
                                + 1]);
                        }
                    }
                }
                let mut entries: Vec<(String, String)> = Vec::new();
                std::mem::swap(&mut entries, &mut self.entries);
                entries.remove(i);
                self.entries = entries;
            },
            Err(_) => {
                proof {
                    lemma_pairs_map_domain(self.entries@);
                    assert forall|i: int| 0 <= i < self.entries@.len() implies self.entries@[i].0@
                        != key@ by {
                        lemma_key_less_asymmetric(self.entries@[i].0@, key@);
                    }
                    assert(self@ =~= self@.remove(key@));
                }
            },
        }
    }

    /// The parameters as (key, value) pairs, in ascending order of key.
    pub fn pairs(&self) -> (pairs: Vec<(String, String)>)
        ensures
            keys_ascending(pairs@),
            keys_distinct(pairs@),
            pairs_map(pairs@) == self@,
    {
        proof {
            use_type_invariant(self);
            lemma_ascending_distinct(self.entries@);
        }
        let mut out: Vec<(String, String)> = Vec::new();
        let mut i: usize = 0;
        while i < self.entries.len()
            invariant
                i <= self.entries@.len(),
                keys_distinct(self.entries@),
                keys_ascending(self.entries@),
                out@.len() == i,
                forall|j: int|
                    0 <= j < i ==> out@[j].0@ == self.entries@[j].0@ && out@[j].1@
                        == self.entries@[j].1@,
                pairs_map(out@) == pairs_map(self.entries@.take(i as int)),
            decreases self.entries@.len() - i,
        {
            let key = self.entries[i].0.clone();
            let value = self.entries[i].1.clone();
            let ghost before = out@;
            out.push((key, value));
            proof {
                assert(out@.drop_last() =~= before);
                assert(self.entries@.take(i + 1).drop_last() =~= self.entries@.take(i as int));
            }
            i = i + 1;
        }
        proof {
            assert(self.entries@.take(i as int) =~= self.entries@);
            assert forall|a: int, b: int| 0 <= a < b < out@.len() implies key_less(
                #[trigger] out@[a].0@,
                #[trigger] out@[b].0@,
            ) by {
                assert(key_less(self.entries@[a].0@, self.entries@[b].0@));
            }
            lemma_ascending_distinct(out@);
        }
        out
    }

    /// A copy of these parameters.
    pub fn copy(&self) -> (params: Self)
        ensures
            params@ == self@,
    {
        SolverParameters { entries: self.pairs() }
    }
}

proof fn lemma_distinct_len(entries: Seq<(String, String)>)
    requires
        keys_distinct(entries),
    ensures
        pairs_map(entries).dom().len() == entries.len(),
        pairs_map(entries).len() == entries.len(),
    decreases entries.len(),
{
    if entries.len() > 0 {
        let prev = entries.drop_last();
        lemma_distinct_len(prev);
        lemma_pairs_map_domain(prev);
        assert(!pairs_map(prev).dom().contains(entries.last().0@)) by {
            if pairs_map(prev).dom().contains(entries.last().0@) {
                let j = choose|j: int| 0 <= j < prev.len() && prev[j].0@ == entries.last().0@;
                assert(entries[j] == prev[j]);
            }
        }
    }
}


// ----- settings -----

/// Settings given for one solve that take precedence over a solver's own.
#[derive(Debug, Clone, Copy, Default)]
pub struct SolveOverrides {
    pub log_to_console: Option<bool>,
    pub time_limit: Option<u64>,
    pub mip_gap: Option<u64>,
    pub verbosity: Option<u32>,
}

/// The settings of a solver that persist across solves. `tolerance`,
/// `time_limit` and `mip_gap` hold `f64` bit patterns.
#[derive(Debug)]
pub struct SolverSettings {
    pub presolve: Option<bool>,
    pub threads: Option<u32>,
    pub tolerance: Option<u64>,
    pub time_limit: Option<u64>,
    pub mip_gap: Option<u64>,
    pub verbosity: Option<u32>,
    pub log_to_console: Option<bool>,
    pub lp_algorithm: Option<LpAlgorithm>,
    pub parameters: SolverParameters,
}

/// The first thing wrong with a set of settings, checked in the order
/// threads, tolerance, time limit, MIP gap; `None` when they are valid.
pub open spec fn first_setting_error(
    threads: Option<u32>,
    tolerance: Option<u64>,
    time_limit: Option<u64>,
    mip_gap: Option<u64>,
) -> Option<SolverSettingError> {
    if threads == Some(0u32) {
        Some(SolverSettingError::ZeroThreads)
    } else if tolerance matches Some(t) && !non_negative_finite_bits(t) {
        Some(SolverSettingError::NotNonNegativeFinite(RealSetting::Tolerance))
    } else if time_limit matches Some(t) && !non_negative_finite_bits(t) {
        Some(SolverSettingError::NotNonNegativeFinite(RealSetting::TimeLimit))
    } else if mip_gap matches Some(t) && !non_negative_finite_bits(t) {
        Some(SolverSettingError::NotNonNegativeFinite(RealSetting::MipGap))
    } else {
        None
    }
}

/// The bit patterns of the `f64` values that are finite and not below
/// zero are exactly those of `+0.0` up to the largest finite value, which
/// lie below that of `+infinity`, and that of `-0.0`.
proof fn lemma_non_negative_finite_bits(b: u64)
    ensures
        non_negative_finite_bits(b) <==> (b < 0x7ff0_0000_0000_0000u64 || b
            == 0x8000_0000_0000_0000u64),
{
    assert(((b >> 52u64) & 0x7ffu64 != 0x7ffu64 && (b >> 63u64 == 0 || b
        & 0x7fff_ffff_ffff_ffffu64 == 0)) <==> (b < 0x7ff0_0000_0000_0000u64 || b
        == 0x8000_0000_0000_0000u64)) by (bit_vector);
}

/// A real-valued setting is refused exactly when its value is not a number,
/// infinite or below zero: accepted are the bit patterns of `+0.0` up to
/// the largest finite `f64` (all below that of `+infinity`) and of `-0.0`.
/// Zero threads are refused, any other count accepted.
pub proof fn lemma_real_settings_refused_exactly_when_not_non_negative_finite(b: u64, n: u32)
    ensures
        ({
            let ok = b < 0x7ff0_0000_0000_0000u64 || b == 0x8000_0000_0000_0000u64;
            &&& first_setting_error(None, Some(b), None, None) == (if ok {
                None
            } else {
                Some(SolverSettingError::NotNonNegativeFinite(RealSetting::Tolerance))
            })
            &&& first_setting_error(None, None, Some(b), None) == (if ok {
                None
            } else {
                Some(SolverSettingError::NotNonNegativeFinite(RealSetting::TimeLimit))
            })
            &&& first_setting_error(None, None, None, Some(b)) == (if ok {
                None
            } else {
                Some(SolverSettingError::NotNonNegativeFinite(RealSetting::MipGap))
            })
        }),
        first_setting_error(Some(n), None, None, None) == (if n == 0 {
            Some(SolverSettingError::ZeroThreads)
        } else {
            None
        }),
{
    lemma_non_negative_finite_bits(b);
}

/// Settings are checked in order: threads, tolerance, time limit, MIP gap;
/// the first refused one is reported, and all accepted means no error.
pub proof fn lemma_settings_checked_in_order(
    threads: Option<u32>,
    tolerance: Option<u64>,
    time_limit: Option<u64>,
    mip_gap: Option<u64>,
)
    ensures
        ({
            let ok = |v: Option<u64>|
                match v {
                    Some(b) => b < 0x7ff0_0000_0000_0000u64 || b == 0x8000_0000_0000_0000u64,
                    None => true,
                };
            let e = first_setting_error(threads, tolerance, time_limit, mip_gap);
            &&& threads == Some(0u32) ==> e == Some(SolverSettingError::ZeroThreads)
            &&& threads != Some(0u32) && !ok(tolerance) ==> e == Some(
                SolverSettingError::NotNonNegativeFinite(RealSetting::Tolerance),
            )
            &&& threads != Some(0u32) && ok(tolerance) && !ok(time_limit) ==> e == Some(
                SolverSettingError::NotNonNegativeFinite(RealSetting::TimeLimit),
            )
            &&& threads != Some(0u32) && ok(tolerance) && ok(time_limit) && !ok(mip_gap) ==> e
                == Some(SolverSettingError::NotNonNegativeFinite(RealSetting::MipGap))
            &&& threads != Some(0u32) && ok(tolerance) && ok(time_limit) && ok(mip_gap) ==> e
                is None
        }),
{
    if let Some(b) = tolerance {
        lemma_non_negative_finite_bits(b);
    }
    if let Some(b) = time_limit {
        lemma_non_negative_finite_bits(b);
    }
    if let Some(b) = mip_gap {
        lemma_non_negative_finite_bits(b);
    }
}

/// `first` when it is set, else `second`.
pub open spec fn prefer<T>(first: Option<T>, second: Option<T>) -> Option<T> {
    match first {
        Some(v) => Some(v),
        None => second,
    }
}

/// A per-solve override that is given replaces the solver's own value,
/// and one that is not given leaves it.
pub proof fn lemma_overrides_take_precedence<T>(given: T, own: Option<T>)
    ensures
        prefer(Some(given), own) == Some(given),
        prefer(None, own) == own,
{
}

fn prefer_u64(first: Option<u64>, second: Option<u64>) -> (r: Option<u64>)
    ensures
        r == prefer(first, second),
{
    match first {
        Some(v) => Some(v),
        None => second,
    }
}

fn prefer_u32(first: Option<u32>, second: Option<u32>) -> (r: Option<u32>)
    ensures
        r == prefer(first, second),
{
    match first {
        Some(v) => Some(v),
        None => second,
    }
}

fn prefer_bool(first: Option<bool>, second: Option<bool>) -> (r: Option<bool>)
    ensures
        r == prefer(first, second),
{
    match first {
        Some(v) => Some(v),
        None => second,
    }
}

fn check_real(value: Option<u64>, which: RealSetting) -> (r: Result<(), SolverSettingError>)
    ensures
        match value {
            Some(t) => if non_negative_finite_bits(t) {
                r is Ok
            } else {
                r == Err::<(), SolverSettingError>(SolverSettingError::NotNonNegativeFinite(which))
            },
            None => r is Ok,
        },
{
    match value {
        Some(bits) => {
            if !is_non_negative_finite(bits) {
                return Err(SolverSettingError::NotNonNegativeFinite(which));
            }
            Ok(())
        },
        None => Ok(()),
    }
}

impl SolverSettings {
    pub open spec fn well_formed(&self) -> bool {
        &&& first_setting_error(self.threads, self.tolerance, self.time_limit, self.mip_gap) is None
    }

    /// Settings from their parts, refused when `threads` is zero or a
    /// real-valued setting is negative, infinite or not a number.
    pub fn new(
        presolve: Option<bool>,
        threads: Option<u32>,
        tolerance: Option<u64>,
        time_limit: Option<u64>,
        mip_gap: Option<u64>,
        verbosity: Option<u32>,
        log_to_console: Option<bool>,
        lp_algorithm: Option<LpAlgorithm>,
        parameters: SolverParameters,
    ) -> (settings: Result<Self, SolverSettingError>)
        ensures
            match settings {
                Ok(s) => {
                    &&& first_setting_error(threads, tolerance, time_limit, mip_gap) is None
                    &&& s.well_formed()
                    &&& s.presolve == presolve
                    &&& s.threads == threads
                    &&& s.tolerance == tolerance
                    &&& s.time_limit == time_limit
                    &&& s.mip_gap == mip_gap
                    &&& s.verbosity == verbosity
                    &&& s.log_to_console == log_to_console
                    &&& s.lp_algorithm == lp_algorithm
                    &&& s.parameters@ == parameters@
                },
                Err(e) => first_setting_error(threads, tolerance, time_limit, mip_gap) == Some(e),
            },
    {
        if let Some(threads) = threads {
            if threads == 0 {
                return Err(SolverSettingError::ZeroThreads);
            }
        }
        check_real(tolerance, RealSetting::Tolerance)?;
        check_real(time_limit, RealSetting::TimeLimit)?;
        check_real(mip_gap, RealSetting::MipGap)?;
        Ok(
            SolverSettings {
                presolve,
                threads,
                tolerance,
                time_limit,
                mip_gap,
                verbosity,
                log_to_console,
                lp_algorithm,
                parameters,
            },
        )
    }

    /// These settings with the overrides of one solve applied: each
    /// override that is set replaces the solver's own value.
    pub fn with_overrides(&self, overrides: SolveOverrides) -> (settings: Result<
        Self,
        SolverSettingError,
    >)
        ensures
            match settings {
                Ok(s) => {
                    &&& first_setting_error(
                        self.threads,
                        self.tolerance,
                        prefer(overrides.time_limit, self.time_limit),
                        prefer(overrides.mip_gap, self.mip_gap),
                    ) is None
                    &&& s.well_formed()
                    &&& s.presolve == self.presolve
                    &&& s.threads == self.threads
                    &&& s.tolerance == self.tolerance
                    &&& s.time_limit == prefer(overrides.time_limit, self.time_limit)
                    &&& s.mip_gap == prefer(overrides.mip_gap, self.mip_gap)
                    &&& s.verbosity == prefer(overrides.verbosity, self.verbosity)
                    &&& s.log_to_console == prefer(overrides.log_to_console, self.log_to_console)
                    &&& s.lp_algorithm == self.lp_algorithm
                    &&& s.parameters@ == self.parameters@
                },
                Err(e) => first_setting_error(
                    self.threads,
                    self.tolerance,
                    prefer(overrides.time_limit, self.time_limit),
                    prefer(overrides.mip_gap, self.mip_gap),
                ) == Some(e),
            },
            self.well_formed() && overrides.time_limit is None && overrides.mip_gap is None
                ==> settings is Ok,
    {
        Self::new(
            self.presolve,
            self.threads,
            self.tolerance,
            prefer_u64(overrides.time_limit, self.time_limit),
            prefer_u64(overrides.mip_gap, self.mip_gap),
            prefer_u32(overrides.verbosity, self.verbosity),
            prefer_bool(overrides.log_to_console, self.log_to_console),
            self.lp_algorithm,
            self.parameters.copy(),
        )
    }
}

/// Checks the settings against what a backend supports: Xpress takes no
/// verbosity and IPOPT no LP algorithm.
pub fn validate_backend_settings(backend: &str, settings: &SolverSettings) -> (r: Result<
    (),
    SolverSettingError,
>)
    ensures
        backend@ == "xpress"@ && settings.verbosity is Some ==> r == Err::<(), SolverSettingError>(
            SolverSettingError::VerbosityUnsupportedByXpress,
        ),
        !(backend@ == "xpress"@ && settings.verbosity is Some) && backend@ == "ipopt"@
            && settings.lp_algorithm is Some ==> r == Err::<(), SolverSettingError>(
            SolverSettingError::LpAlgorithmUnsupportedByIpopt,
        ),
        !(backend@ == "xpress"@ && settings.verbosity is Some) && !(backend@ == "ipopt"@
            && settings.lp_algorithm is Some) ==> r is Ok,
{
    if str_eq(backend, "xpress") && settings.verbosity.is_some() {
        return Err(SolverSettingError::VerbosityUnsupportedByXpress);
    }
    if str_eq(backend, "ipopt") && settings.lp_algorithm.is_some() {
        return Err(SolverSettingError::LpAlgorithmUnsupportedByIpopt);
    }
    Ok(())
}

/// The parameters given to a solver, with the `solver` option, when given,
/// set under the key `solver`.
pub fn merge_solver_parameter(parameters: Option<SolverParameters>, solver: Option<String>) -> (merged:
    SolverParameters)
    ensures
        merged@ == match solver {
            Some(name) => match parameters {
                Some(p) => p@,
                None => Map::<Seq<char>, Seq<char>>::empty(),
            }.insert("solver"@, name@),
            None => match parameters {
                Some(p) => p@,
                None => Map::<Seq<char>, Seq<char>>::empty(),
            },
        },
{
    let mut parameters = match parameters {
        Some(p) => p,
        None => SolverParameters::new(),
    };
    if let Some(solver) = solver {
        parameters.insert("solver".to_owned(), solver);
    }
    parameters
}

// ----- updates by name -----

/// A setting that an update can name.
#[derive(Debug, Clone, Copy, PartialEq, Eq, Structural)]
pub enum SettingKey {
    Presolve,
    Threads,
    Tolerance,
    TimeLimit,
    MipGap,
    Verbosity,
    LogToConsole,
    LpAlgorithm,
    Parameters,
    Solver,
}

/// The name under which an update names a setting.
pub open spec fn setting_key_name(key: SettingKey) -> Seq<char> {
    match key {
        SettingKey::Presolve => "presolve"@,
        SettingKey::Threads => "threads"@,
        SettingKey::Tolerance => "tolerance"@,
        SettingKey::TimeLimit => "time_limit"@,
        SettingKey::MipGap => "mip_gap"@,
        SettingKey::Verbosity => "verbosity"@,
        SettingKey::LogToConsole => "log_to_console"@,
        SettingKey::LpAlgorithm => "lp_algorithm"@,
        SettingKey::Parameters => "parameters"@,
        SettingKey::Solver => "solver"@,
    }
}

/// The setting an update names, refused when the name is none of them.
pub fn parse_setting_key(name: &str) -> (key: Result<SettingKey, SolverSettingError>)
    ensures
        match key {
            Ok(k) => name@ == setting_key_name(k),
            Err(e) => (forall|k: SettingKey| name@ != #[trigger] setting_key_name(k)) && (
            e matches SolverSettingError::UnknownSetting(n) && n@ == name@),
        },
{
    if str_eq(name, "presolve") {
        Ok(SettingKey::Presolve)
    } else if str_eq(name, "threads") {
        Ok(SettingKey::Threads)
    } else if str_eq(name, "tolerance") {
        Ok(SettingKey::Tolerance)
    } else if str_eq(name, "time_limit") {
        Ok(SettingKey::TimeLimit)
    } else if str_eq(name, "mip_gap") {
        Ok(SettingKey::MipGap)
    } else if str_eq(name, "verbosity") {
        Ok(SettingKey::Verbosity)
    } else if str_eq(name, "log_to_console") {
        Ok(SettingKey::LogToConsole)
    } else if str_eq(name, "lp_algorithm") {
        Ok(SettingKey::LpAlgorithm)
    } else if str_eq(name, "parameters") {
        Ok(SettingKey::Parameters)
    } else if str_eq(name, "solver") {
        Ok(SettingKey::Solver)
    } else {
        proof {
            assert forall|k: SettingKey| name@ != #[trigger] setting_key_name(k) by {
                match k {
                    SettingKey::Presolve => {},
                    SettingKey::Threads => {},
                    SettingKey::Tolerance => {},
                    SettingKey::TimeLimit => {},
                    SettingKey::MipGap => {},
                    SettingKey::Verbosity => {},
                    SettingKey::LogToConsole => {},
                    SettingKey::LpAlgorithm => {},
                    SettingKey::Parameters => {},
                    SettingKey::Solver => {},
                }
            }
        }
        Err(SolverSettingError::UnknownSetting(name.to_owned()))
    }
}

/// The setting a name of the given first letter and length can stand
/// for.
spec fn key_by_shape(first: char, len: nat) -> SettingKey {
    if first == 'p' {
        if len == 8 {
            SettingKey::Presolve
        } else {
            SettingKey::Parameters
        }
    } else if first == 't' {
        if len == 7 {
            SettingKey::Threads
        } else if len == 9 {
            SettingKey::Tolerance
        } else {
            SettingKey::TimeLimit
        }
    } else if first == 'm' {
        SettingKey::MipGap
    } else if first == 'v' {
        SettingKey::Verbosity
    } else if first == 'l' {
        if len == 14 {
            SettingKey::LogToConsole
        } else {
            SettingKey::LpAlgorithm
        }
    } else {
        SettingKey::Solver
    }
}

proof fn lemma_key_shape(key: SettingKey)
    ensures
        setting_key_name(key).len() > 0,
        key_by_shape(setting_key_name(key)[0], setting_key_name(key).len()) == key,
{
    reveal_strlit("presolve");
    reveal_strlit("threads");
    reveal_strlit("tolerance");
    reveal_strlit("time_limit");
    reveal_strlit("mip_gap");
    reveal_strlit("verbosity");
    reveal_strlit("log_to_console");
    reveal_strlit("lp_algorithm");
    reveal_strlit("parameters");
    reveal_strlit("solver");
}

/// Distinct settings have distinct names, so the name of each setting is
/// read back as that setting.
pub proof fn lemma_setting_key_roundtrip(key: SettingKey, name: &str, parsed: SettingKey)
    requires
        name@ == setting_key_name(key),
        name@ == setting_key_name(parsed),
    ensures
        parsed == key,
{
    lemma_key_shape(key);
    lemma_key_shape(parsed);
}

/// Each setting is named by the word that spells it: `presolve`,
/// `threads`, `tolerance`, `time_limit`, `mip_gap`, `verbosity`,
/// `log_to_console`, `lp_algorithm`, `parameters` and `solver`.
pub proof fn lemma_setting_key_words(key: SettingKey)
    ensures
        setting_key_name(key) == "presolve"@ <==> key == SettingKey::Presolve,
        setting_key_name(key) == "threads"@ <==> key == SettingKey::Threads,
        setting_key_name(key) == "tolerance"@ <==> key == SettingKey::Tolerance,
        setting_key_name(key) == "time_limit"@ <==> key == SettingKey::TimeLimit,
        setting_key_name(key) == "mip_gap"@ <==> key == SettingKey::MipGap,
        setting_key_name(key) == "verbosity"@ <==> key == SettingKey::Verbosity,
        setting_key_name(key) == "log_to_console"@ <==> key == SettingKey::LogToConsole,
        setting_key_name(key) == "lp_algorithm"@ <==> key == SettingKey::LpAlgorithm,
        setting_key_name(key) == "parameters"@ <==> key == SettingKey::Parameters,
        setting_key_name(key) == "solver"@ <==> key == SettingKey::Solver,
{
    lemma_key_shape(key);
    lemma_key_shape(SettingKey::Presolve);
    lemma_key_shape(SettingKey::Threads);
    lemma_key_shape(SettingKey::Tolerance);
    lemma_key_shape(SettingKey::TimeLimit);
    lemma_key_shape(SettingKey::MipGap);
    lemma_key_shape(SettingKey::Verbosity);
    lemma_key_shape(SettingKey::LogToConsole);
    lemma_key_shape(SettingKey::LpAlgorithm);
    lemma_key_shape(SettingKey::Parameters);
    lemma_key_shape(SettingKey::Solver);
}

/// A new value for one setting.
#[derive(Debug)]
pub enum SettingUpdate {
    Presolve(Option<bool>),
    Threads(Option<u32>),
    Tolerance(Option<u64>),
    TimeLimit(Option<u64>),
    MipGap(Option<u64>),
    Verbosity(Option<u32>),
    LogToConsole(Option<bool>),
    LpAlgorithm(Option<LpAlgorithm>),
    /// Replaces all parameters.
    Parameters(SolverParameters),
    /// Sets the `solver` parameter, or removes it when `None`.
    Solver(Option<String>),
}

impl SolverSettings {
    /// Applies one update, without validating the result.
    pub fn apply_update(&mut self, update: SettingUpdate)
        ensures
            final(self).presolve == (match update {
                SettingUpdate::Presolve(v) => v,
                _ => old(self).presolve,
            }),
            final(self).threads == (match update {
                SettingUpdate::Threads(v) => v,
                _ => old(self).threads,
            }),
            final(self).tolerance == (match update {
                SettingUpdate::Tolerance(v) => v,
                _ => old(self).tolerance,
            }),
            final(self).time_limit == (match update {
                SettingUpdate::TimeLimit(v) => v,
                _ => old(self).time_limit,
            }),
            final(self).mip_gap == (match update {
                SettingUpdate::MipGap(v) => v,
                _ => old(self).mip_gap,
            }),
            final(self).verbosity == (match update {
                SettingUpdate::Verbosity(v) => v,
                _ => old(self).verbosity,
            }),
            final(self).log_to_console == (match update {
                SettingUpdate::LogToConsole(v) => v,
                _ => old(self).log_to_console,
            }),
            final(self).lp_algorithm == (match update {
                SettingUpdate::LpAlgorithm(v) => v,
                _ => old(self).lp_algorithm,
            }),
            final(self).parameters@ == (match update {
                SettingUpdate::Parameters(p) => p@,
                SettingUpdate::Solver(Some(name)) => old(self).parameters@.insert("solver"@, name@),
                SettingUpdate::Solver(None) => old(self).parameters@.remove("solver"@),
                _ => old(self).parameters@,
            }),
    {
        match update {
            SettingUpdate::Presolve(v) => {
                self.presolve = v;
            },
            SettingUpdate::Threads(v) => {
                self.threads = v;
            },
            SettingUpdate::Tolerance(v) => {
                self.tolerance = v;
            },
            SettingUpdate::TimeLimit(v) => {
                self.time_limit = v;
            },
            SettingUpdate::MipGap(v) => {
                self.mip_gap = v;
            },
            SettingUpdate::Verbosity(v) => {
                self.verbosity = v;
            },
            SettingUpdate::LogToConsole(v) => {
                self.log_to_console = v;
            },
            SettingUpdate::LpAlgorithm(v) => {
                self.lp_algorithm = v;
            },
            SettingUpdate::Parameters(p) => {
                self.parameters = p;
            },
            SettingUpdate::Solver(Some(name)) => {
                self.parameters.insert("solver".to_owned(), name);
            },
            SettingUpdate::Solver(None) => {
                self.parameters.remove("solver");
            },
        }
    }

    /// These settings, checked again after updates.
    pub fn validated(self) -> (settings: Result<Self, SolverSettingError>)
        ensures
            match settings {
                Ok(s) => {
                    &&& first_setting_error(self.threads, self.tolerance, self.time_limit, self.mip_gap)
                        is None
                    &&& s.well_formed()
                    &&& s.presolve == self.presolve
                    &&& s.threads == self.threads
                    &&& s.tolerance == self.tolerance
                    &&& s.time_limit == self.time_limit
                    &&& s.mip_gap == self.mip_gap
                    &&& s.verbosity == self.verbosity
                    &&& s.log_to_console == self.log_to_console
                    &&& s.lp_algorithm == self.lp_algorithm
                    &&& s.parameters@ == self.parameters@
                },
                Err(e) => first_setting_error(self.threads, self.tolerance, self.time_limit, self.mip_gap)
                    == Some(e),
            },
    {
        Self::new(
            self.presolve,
            self.threads,
            self.tolerance,
            self.time_limit,
            self.mip_gap,
            self.verbosity,
            self.log_to_console,
            self.lp_algorithm,
            self.parameters,
        )
    }
}

} // verus!
