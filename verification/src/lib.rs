use vstd::prelude::*;

pub mod status;
pub mod dense_mapping;
pub mod text;
pub mod sparse;
pub mod indexing;
pub mod solver_settings;
pub mod sense;
pub mod profile;
pub mod naming;
pub mod einsum;
pub mod csc;
pub mod array_ops;
pub mod variable_slots;
pub mod memory;
pub mod sparse_node;
pub mod compact;

verus! {

} // verus!
