# oxygen_flow

A virtual machine for flow programs (events, functions and trait methods
written as graphs of nodes), and the point types of splines.

Layout:

- `src/ast.rs`: the program model: nodes, events, functions, traits, types.
- `src/flow.rs`, `src/graph.rs`: the execution order of a flow graph, found
  with `petgraph` (its functions are called through the trusted wrappers of
  `graph.rs`).
- `src/load.rs`, `src/vm.rs`: loading a program, and the machine's public
  operations (events, global variables, host operations).
- `src/event.rs`, `src/step.rs`: a running event and what one step does.
- `src/value.rs`: values and the shared cells that hold them.
- `src/keyed.rs`: small maps kept as vectors of pairs.
- `src/laws.rs`: properties that relate several operations.
- `src/spline.rs`: spline points and their directions.
- `app/`: the host side: calls guarded where the machine would panic, and the
  serializable forms of the spline types.
- `tests/`: programs run on the machine, and the library's parts.
