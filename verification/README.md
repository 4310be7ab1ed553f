# issundb_core

The core of an embedded property graph: nodes and edges with labels, types and
properties, property and text indexes, unique and required constraints, and graph
kernels over a compressed snapshot. It is written in Verus, which proves the
contracts of all of `src/` but for a few wrappers around `ahash`, the standard sort and
UTF-8 decoding.

## Layout

- `src/store*.rs`, `src/catalog.rs`, `src/tables.rs`, `src/value.rs`, `src/keys.rs`: the
  records, their indexes and constraints, and the order-preserving encodings.
- `src/graph*.rs`: a graph, its write transactions, its queries and its kernels; the
  snapshot is current exactly while no write has been published since it was taken.
- `src/csr.rs`, `src/image.rs`, `src/grouping.rs`, `src/entries.rs`: the snapshot, how it
  shows a store, and the order of adjacency entries.
- `src/traversal.rs`, `src/paths.rs`, `src/simple_paths.rs`, `src/depth_first.rs`,
  `src/dijkstra.rs`, `src/weighted.rs`, `src/rounds.rs`, `src/loopless.rs`, `src/top_k.rs`,
  `src/flow.rs`, `src/forest.rs`, `src/components.rs`, `src/finish.rs`, `src/scc.rs`,
  `src/louvain.rs`, `src/analytics.rs`, `src/neighborhoods.rs`, `src/counting.rs`,
  `src/typed_adj.rs`, `src/triangles.rs`: the kernels.
- `src/text.rs`, `src/text_sync.rs`: text indexes, and the writes that keep them in step
  with the records. The caller brings the function that splits a text into terms.
- `src/laws.rs`, `src/spanning.rs`, `src/path_laws.rs`, `src/community_laws.rs`: what holds
  across operations.
- `src/sets.rs`: what is believed of the hash sets of `ahash`.
- `app/`: the graph on disk, and the scores that need floating point.
- `tests/`: tests on concrete graphs.
