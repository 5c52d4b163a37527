# stamps_native

Integer core of a grid phase unwrapper, written in Verus: every function in
`src/` carries a `requires`/`ensures` contract proved by the verifier.

Layout:

- `src/` – the verified library.
  - `edges`, `incr_cost`, `flow_schedule`: the edge cost model and flow costs.
  - `residual`, `residual_view`, `cycle_objective`: residual graphs over the
    dual grid, cycle application (residues are kept) and what a cycle does
    to the flow objective.
  - `tree_cycle`, `rooted_tree`, `tree_path`, `tree_basis`, `tree_compact`:
    spanning trees, fundamental cycles and tree path costs.
  - `mst_flow`, `route`, `route_search`, `pair_route`, `residue_pairing`:
    initial flows, routing of residues to the boundary (with the distance
    certificate that makes each route table a table of cheapest first
    steps) and residue pairing/balancing.
  - `label_energy`, `label_seed`, `components`, `cut`, `patch`: labels, their
    energy, seeding from edge deltas and refinement moves.
  - `ifg_index`, `grid_index`, `file_names`, `grid_sum`: index and bookkeeping
    helpers behind the Python-facing functions.
- `tests/` – tests run against the compiled library.
- `app/` – the Python extension module (pyo3/numpy) that converts arrays to
  plain values and calls the library.
