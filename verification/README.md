# layout

A hierarchical (Sugiyama-style) layout engine for directed graphs, with its
combinatorial phases verified by Verus.

## Pipeline

1. `LayoutGraph::extract_self_loops` takes self-loops out of the graph.
2. `break_cycles` reverses DFS back-edges until no cycle is left between
   distinct nodes; self-loops survive it unchanged.
3. `assign_ranks` validates the graph and gives every node its longest-path
   rank (the lowest rank any layering allows), grouping nodes into layers.
4. `insert_dummy_nodes` splits every edge that spans several ranks into a
   chain of single-rank edges through dummy nodes.
5. `order_layers` reduces crossings with alternating barycenter sweeps, each
   followed by a bounded transpose cleanup; `count_total_crossings` counts
   the crossings of a layering.
6. Coordinate assignment and edge routing (floating point) run on the result.

`ffi::run_pipeline` runs steps 1–5 on a graph keyed by the caller's own
`u64` node ids and never fails on a graph whose ids are unique and whose
edges refer to known ids.

## Layout of the crate

- `src/` — the verified library: `types`, `validate`, `cycles`, `ranks`,
  `dummy_nodes`, `crossings`, `crossing_laws` (how transposition changes the
  crossing count), `crossing_symmetry` (the count ignores edge order and
  layer direction), `binary32` (single-precision rounding of quotients, on
  integers: the barycenter scores are the bit patterns of the `f32` means),
  `messages` (error texts), `ffi` (the batched entry point's logic). Sizes
  and coordinates are carried as `f32` bit patterns; the library never
  computes with them.
- `app/` — coordinate assignment and edge routing, the UniFFI bindings, and
  `serde` mirrors of the data types.
- `tests/` — tests of the library.
