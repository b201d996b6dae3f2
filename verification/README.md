# cs260

Static analyses over a low-level intermediate representation (LIR), written
in Verus: the public functions of the library carry contracts that Verus proves. Two
small wrappers are trusted: one calls `natord::compare` and one formats a
label as `format!("{:?}", ..)` does.

- `src/lir.rs`, `src/program.rs`, `src/stats.rs`: the LIR, its queries and
  statistics, and the reading of statistics texts.
- `src/cfg.rs`, `src/traversal.rs`: control-flow graphs of functions, their
  neighbour queries, depth-first orders, reachability and loop headers.
- `src/semantics.rs`, `src/domain.rs`, `src/defs.rs`, `src/store.rs`: abstract
  domains (constants, intervals, reaching definitions, control dependence)
  and stores, with their join laws; `src/interval_sound.rs`: soundness of
  the interval arithmetic.
- `src/analysis.rs`, `src/rdef.rs`, `src/rdinit.rs`, `src/fixpoint.rs`,
  `src/execution.rs`, `src/control.rs`: the constant, interval,
  reaching-definitions and control-dependence analyzers, their worklist
  iterations and their common interface.
- `src/graph.rs`, `src/dominators.rs`, `src/domtree.rs`: graphs of numbered
  nodes with reachability, loop headers, dominators and dominator trees;
  `src/cfgdom.rs`: the dominators of the blocks of a control-flow graph.
- `src/points.rs`, `src/rendering.rs`, `src/natural.rs`: texts of program
  points, analysis values and graphs.
- `src/reach.rs`: the types reachable from a type and the address-taken
  variables of a function.
- `src/report.rs`: the order in which analysis results are reported.
- `src/samples.rs`: small sample types.

`app/` holds the command-line program: JSON reading and writing, file
output and printing. `tests/` holds the tests.
