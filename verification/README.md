# arco

The index, naming and settings logic of Arco's Python bindings, written in
Verus and proved against its contracts.

Arco models are built from arrays of variables and expressions indexed by
named index sets. Behind each NumPy-style operation on such an array lies
plain integer bookkeeping: which cells a subscript selects, which cells of a
sparse array a difference, roll or sum has entries at, where the operands of
`einsum` and `concatenate` are read from. This crate holds that bookkeeping,
together with the validation of solver settings, the combination of block
statuses and the naming of model elements and artifacts.

## Layout

- `src/` is the verified library, one module per concern:
  - `indexing`: integer, slice and mask subscripts and the flat offsets of a selection;
  - `sparse`, `sparse_node`, `dense_mapping`: sparse arrays and their lazy operations;
  - `array_ops`, `einsum`, `csc`, `compact`: index plans of array operations;
  - `solver_settings`, `sense`, `status`: settings, senses and statuses;
  - `profile`, `memory`, `naming`: statistics, estimates and names;
  - `variable_slots`, `text`: variable storage and string helpers.
- `tests/` runs the library on concrete values.
- `app/` is the Python extension module (pyo3). It converts Python values,
  calls the library and raises the Python exceptions. Verus does not check it.

The expression values themselves (floating-point coefficients) and the model,
solver and block runtime live in Arco's model crates. They are not part of
this crate, so the operations that build or combine expressions stay outside
it.
