# fusion_blossom

A decoder of quantum error correction codes: it pairs up the defects of a syndrome by a
minimum-weight perfect matching of a decoding graph. The library is written in Verus: every
function under `src/` carries a contract that Verus proves, except the few small wrappers around
the `priority-queue` crate in `src/complete_graph.rs`, whose contracts are trusted.

## Layout

- `src/util.rs`: the solver's input (`SolverInitializer`), syndromes, and the partition
  configuration with its checks.
- `src/complete_graph.rs`: shortest paths between vertices by Dijkstra's search over a priority
  queue of the `priority-queue` crate, with edge weights that can be changed and restored
  (erasures, dynamic weights).
- `src/blossom_v.rs`: exact minimum-weight perfect matching of a small complete graph.
- `src/dual_module.rs`: dual nodes (defect vertices and blossoms), the interface that records
  them and their dual variables, and the fusion of interfaces.
- `src/dual_module_serial.rs`: the serial dual module: growing and shrinking the boundaries of
  dual nodes over the decoding graph, and finding the conflicts that stop the growth.
- `src/dual_module_parallel.rs`: several serial units over a partitioned graph, fused along a
  tree.
- `src/fusion_single_thread.rs`: a single-threaded solver over its own copy of the graph: loading
  a syndrome, tree nodes of single defects with their union-find clusters, and growing them.
- `src/primal_module.rs`: intermediate matchings and their expansion into a perfect matching of
  the defect vertices.
- `src/example_codes.rs`, `src/example_partition.rs`: decoding graphs of the example codes and
  the ways to partition them.
- `src/priority.rs`: ordering of the conflicts that the dual module reports.
- `tests/`: tests of the library on concrete values.
- `app/`: the command line program (argument parsing, printing, thread pools), outside Verus.

Each public law of the library is a `pub proof fn` next to the functions it speaks of; its doc
comment states it in words.
