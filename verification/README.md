# hasse

Graphs on numbered vertices and the operations behind Hasse diagrams, written
in Verus with their behaviour stated as contracts and proved.

- `src/graph.rs`: the `Graph` type (adjacency rows, directedness, labels) with
  reachability and shortest walks avoiding an edge (breadth-first search),
  transitive reduction and closure, sources, sinks, Kahn's topological sort and
  the layer assignment used for layered drawings.
- `src/paths.rs`: walks, reachability and distances over `Seq<Seq<usize>>`.
- `src/reduction_laws.rs`, `src/closure_laws.rs`: what the reduction and the
  closure keep (reachability of acyclic graphs, minimality, idempotence, the
  closure's edges as the reachable pairs).
- `src/ordering.rs`: topological orders, in-degree bookkeeping and cycles.
- `src/layout.rs`: grouping vertices by layer.
- `src/builder.rs`: `GraphBuilder`, naming vertices by keys (`usize`, `&str`,
  `String`).
- `src/edge_input.rs`: reading an edge typed as `u v`.
- `src/text.rs`: decimal labels and character access to text.
- `app/`: the interactive program and the FLTK window (I/O, floating-point
  positions and drawing).
