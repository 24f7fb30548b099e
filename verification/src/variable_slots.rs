//! Which variable sits in each cell of a variable array: a contiguous block
//! of ids, a sparse list of active cells with their ids, or an explicit
//! slot per cell.

use vstd::prelude::*;
use crate::sparse::strictly_sorted;

verus! {

/// The position of `target` in a strictly increasing list, found by
/// bisection.
pub fn binary_search(sorted: &[usize], target: usize) -> (found: Option<usize>)
    requires
        strictly_sorted(sorted@),
    ensures
        match found {
            Some(p) => p < sorted@.len() && sorted@[p as int] == target,
            None => !sorted@.contains(target),
        },
{
    let mut lo: usize = 0;
    let mut hi: usize = sorted.len();
    while lo < hi
        invariant
            lo <= hi <= sorted@.len(),
            strictly_sorted(sorted@),
            forall|j: int| 0 <= j < lo ==> sorted@[j] < target,
            forall|j: int| hi <= j < sorted@.len() ==> sorted@[j] > target,
        decreases hi - lo,
    {
        let mid = lo + (hi - lo) / 2;
        let key = sorted[mid];
        if key == target {
            return Some(mid);
        } else if key < target {
            lo = mid + 1;
        } else {
            hi = mid;
        }
    }
    proof {
        assert(!sorted@.contains(target)) by {
            if sorted@.contains(target) {
                let j = choose|j: int| 0 <= j < sorted@.len() && sorted@[j] == target;
                assert(j < lo || j >= hi);
            }
        }
    }
    None
}

/// How the variables of an array are stored.
#[derive(Debug)]
pub enum VariableSlots {
    /// Cells `0..count` hold the ids `start_var_id..`.
    Compact { start_var_id: u32, count: usize },
    /// Only the cells at `active_indices`, of `len` cells, hold a variable,
    /// with the id at the same position of `var_ids`.
    Sparse { active_indices: Vec<usize>, var_ids: Vec<u32>, len: usize },
    /// Each cell holds the variable given for it, if any.
    Full { slots: Vec<Option<u32>> },
}

impl VariableSlots {
    pub open spec fn well_formed(&self) -> bool {
        match self {
            VariableSlots::Compact { start_var_id, count } => *start_var_id + *count <= u32::MAX + 1,
            VariableSlots::Sparse { active_indices, var_ids, len } => {
                &&& strictly_sorted(active_indices@)
                &&& var_ids@.len() == active_indices@.len()
                &&& forall|k: int| 0 <= k < active_indices@.len() ==> #[trigger] active_indices@[k] < *len
            },
            VariableSlots::Full { .. } => true,
        }
    }

    /// The number of cells.
    pub open spec fn len_spec(&self) -> nat {
        match self {
            VariableSlots::Compact { count, .. } => *count as nat,
            VariableSlots::Sparse { len, .. } => *len as nat,
            VariableSlots::Full { slots: var_ids } => var_ids@.len(),
        }
    }

    /// The id of the variable in cell `index`, if one is there.
    pub open spec fn id_at(&self, index: int) -> Option<u32> {
        match self {
            VariableSlots::Compact { start_var_id, count } => if 0 <= index < *count {
                Some((*start_var_id + index) as u32)
            } else {
                None
            },
            VariableSlots::Sparse { active_indices, var_ids, .. } => if exists|k: int|
                0 <= k < active_indices@.len() && active_indices@[k] == index {
                Some(
                    var_ids@[choose|k: int|
                        0 <= k < active_indices@.len() && active_indices@[k] == index],
                )
            } else {
                None
            },
            VariableSlots::Full { slots: var_ids } => if 0 <= index < var_ids@.len() {
                var_ids@[index]
            } else {
                None
            },
        }
    }

    /// Whether `position` is where cell `index` keeps its variable: its
    /// position among the active cells for sparse storage, else the cell.
    pub open spec fn slot_position(&self, index: int, position: usize) -> bool {
        match self {
            VariableSlots::Sparse { active_indices, .. } => position < active_indices@.len()
                && active_indices@[position as int] == index,
            _ => position == index,
        }
    }

    /// The number of cells.
    pub fn len(&self) -> (n: usize)
        ensures
            n == self.len_spec(),
    {
        match self {
            VariableSlots::Compact { count, .. } => *count,
            VariableSlots::Sparse { len, .. } => *len,
            VariableSlots::Full { slots: var_ids } => var_ids.len(),
        }
    }

    /// The name of the storage kind.
    pub fn storage_kind(&self) -> (kind: &'static str)
        ensures
            kind@ == match self {
                VariableSlots::Compact { .. } => "compact"@,
                VariableSlots::Sparse { .. } => "sparse"@,
                VariableSlots::Full { .. } => "full"@,
            },
    {
        match self {
            VariableSlots::Compact { .. } => "compact",
            VariableSlots::Sparse { .. } => "sparse",
            VariableSlots::Full { .. } => "full",
        }
    }

    /// The id of the variable in cell `index`, if one is there.
    pub fn variable_id_at_flat(&self, index: usize) -> (id: Option<u32>)
        requires
            self.well_formed(),
        ensures
            id == self.id_at(index as int),
    {
        match self {
            VariableSlots::Compact { start_var_id, count } => {
                if index < *count {
                    Some(*start_var_id + index as u32)
                } else {
                    None
                }
            },
            VariableSlots::Sparse { active_indices, var_ids, .. } => {
                match binary_search(active_indices.as_slice(), index) {
                    Some(position) => {
                        proof {
                            let k = choose|k: int|
                                0 <= k < active_indices@.len() && active_indices@[k] == index;
                            if k != position {
                                if k < position {
                                    assert(active_indices@[k] < active_indices@[position as int]);
                                } else {
                                    assert(active_indices@[position as int] < active_indices@[k]);
                                }
                            }
                        }
                        Some(var_ids[position])
                    },
                    None => None,
                }
            },
            VariableSlots::Full { slots: var_ids } => {
                if index < var_ids.len() {
                    var_ids[index]
                } else {
                    None
                }
            },
        }
    }

    /// The number of cells that hold a variable.
    pub fn active_len(&self) -> (n: usize)
        ensures
            n == match self {
                VariableSlots::Compact { count, .. } => *count as nat,
                VariableSlots::Sparse { active_indices, .. } => active_indices@.len(),
                VariableSlots::Full { slots: var_ids } => count_some(var_ids@),
            },
    {
        match self {
            VariableSlots::Compact { count, .. } => *count,
            VariableSlots::Sparse { active_indices, .. } => active_indices.len(),
            VariableSlots::Full { slots: var_ids } => {
                let mut n: usize = 0;
                let mut i: usize = 0;
                while i < var_ids.len()
                    invariant
                        i <= var_ids@.len(),
                        n == count_some(var_ids@.take(i as int)),
                        n <= i,
                    decreases var_ids@.len() - i,
                {
                    proof {
                        assert(var_ids@.take(i + 1).drop_last() =~= var_ids@.take(i as int));
                    }
                    if var_ids[i].is_some() {
                        n = n + 1;
                    }
                    i = i + 1;
                }
                proof {
                    assert(var_ids@.take(i as int) =~= var_ids@);
                }
                n
            },
        }
    }

    /// Every cell's variable id and, for sparse storage, its position among
    /// the active cells.
    pub fn slots(&self) -> (slots: Vec<Option<(u32, usize)>>)
        requires
            self.well_formed(),
        ensures
            slots@.len() == self.len_spec(),
            forall|i: int|
                0 <= i < slots@.len() ==> match #[trigger] slots@[i] {
                    Some(s) => self.id_at(i) == Some(s.0) && self.slot_position(i, s.1),
                    None => self.id_at(i) is None,
                },
    {
        let n = self.len();
        let mut slots: Vec<Option<(u32, usize)>> = Vec::new();
        let mut i: usize = 0;
        while i < n
            invariant
                self.well_formed(),
                n == self.len_spec(),
                i <= n,
                slots@.len() == i,
                forall|j: int|
                    0 <= j < i ==> match #[trigger] slots@[j] {
                        Some(s) => self.id_at(j) == Some(s.0) && self.slot_position(j, s.1),
                        None => self.id_at(j) is None,
                    },
            decreases n - i,
        {
            let slot = match self {
                VariableSlots::Sparse { active_indices, var_ids, .. } => match binary_search(
                    active_indices.as_slice(),
                    i,
                ) {
                    Some(position) => {
                        let id = self.variable_id_at_flat(i);
                        match id {
                            Some(v) => Some((v, position)),
                            None => None,
                        }
                    },
                    None => None,
                },
                _ => match self.variable_id_at_flat(i) {
                    Some(v) => Some((v, i)),
                    None => None,
                },
            };
            proof {
                assert(self.id_at(i as int) == self.id_at(i as int));
            }
            slots.push(slot);
            i = i + 1;
        }
        slots
    }
}

/// The number of cells holding a variable.
pub open spec fn count_some(slots: Seq<Option<u32>>) -> nat
    decreases slots.len(),
{
    if slots.len() == 0 {
        0
    } else {
        count_some(slots.drop_last()) + if slots.last() is Some {
            1nat
        } else {
            0nat
        }
    }
}

} // verus!
