# rumoca_lower

The verified part of the Solve-IR lowering phase of a Modelica compiler:
the bookkeeping, shape arithmetic and analyses that the lowering of DAE
equations, function calls and conditions relies on. Every function in
`src/` carries a `requires`/`ensures` contract that Verus proves.

Not in `src/`: the register-emitting expression compiler itself, that is
the projection of array expressions to scalars, the lowering of function
calls and intrinsics to Solve-IR operations, the binding of function
inputs, and the lowering of equations to residual rows. Of these,
`src/` holds the decisions that sit around the emitted operations: the
plan of which source binds each input of a call (and which unused
flattened record inputs are left unbound), the fields that a record
constructor actual binds, the actual that a scalar use of a record
constructor call reads, the step-by-step dispatch of a function call
(record constructor, numeric intrinsics, inline depth limit, known,
external, projected or unknown function), the element positions that
scalar projection of `transpose` and `cross` reads, and, for residual
rows, the residual form of an equation, its row
count, the negation of state rows, the checked concatenation of the
rows of successive equations, and the choice of the equations whose
residuals initialization solves.

Layout of `src/`:

- `span`, `error`, `capacity`, `text` — source spans, lowering errors with
  their exact messages, allocation that may be refused, decimal text.
- `dims`, `shape`, `projection_index`, `scalar_projection`,
  `result_dims`, `ranges`, `indexed`, `keys` — shape and index arithmetic: checked element counts, row-major
  positions, slice ranges, result shapes of operators, indexed binding
  tables and subscript binding keys.
- `scope`, `builder`, `input_binding`, `call_dispatch`,
  `output_projection`, `rows` — register scopes, function-input binding
  state and plans, function-call dispatch, projected function outputs and
  row namespaces.
- `ir`, `var_refs`, `runtime_conditions`, `external_tables`,
  `initial_residual` — the DAE expression and statement tree and the
  analyses that walk it.
- `alias`, `root_relations`, `discrete_relations`, `subscripts`, `paths`,
  `strings`, `intrinsics` — discrete alias orientation, relation memory
  keys, subscripts, dotted paths, string intrinsics and intrinsic names.
- `collections` — the trusted contracts of the `indexmap` calls the logic
  makes.

Public proof functions whose names start with `law_` state properties that
hold across calls (round trips, invariants of orientation, what a walk
records).
