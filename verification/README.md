# structurer

Control-flow structuring for a bytecode decompiler: a control-flow graph is
mirrored in a region graph whose nodes are collapsed, pattern by pattern,
into structured regions (sequences, if/else, OR chains, loops, switches).

The functions in `src/` are verified with Verus against their contracts,
except the small wrappers in `graph_store.rs` that call petgraph: their
contracts are trusted, and their doc comments say what each one claims.

Layout of `src/`:

- `cfg.rs` – the control-flow graph (blocks, typed edges) and its successor
  and predecessor lists.
- `ast.rs` – the statement and expression tree the regions are lowered to.
- `region.rs` – the region tree and its queries (entry, exit, blocks held,
  termination).
- `graph_store.rs` – the petgraph graphs behind the region graph and the
  dominator computation, with the contracts relied on for each call.
- `region_graph.rs` – the region graph: construction from a CFG, collapse of
  node sets and of straight-line sequences, reverse post-order.
- `region_dominance.rs` – dominators and post-dominators of a region graph.
- `patterns.rs` – recognition of if/else, loop, switch and OR-chain patterns.
- `flow_order.rs` – ordering a set of nodes along the flow of control.
- `reducer.rs` – reduction steps: reachability, sequence collapse, if,
  OR-chain, loop and switch collapse, inline-expansion collapse, the
  fallback region.
- `reduction.rs` – the reduction loop: dead-code removal, one step in
  priority order, and the loop from a control-flow graph down to a single
  region.
- `stmts.rs` – statement simplification and variable-use queries.
- `lower.rs` – lowering helpers: the early-exit merge and the statements a
  loop is written as.

Tests live under `tests/`, one file per area.
