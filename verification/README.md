# consensus_graph

The consensus graph of a tree-graph ledger, written in Verus: blocks, their pasts and epochs, the
weights that choose the pivot chain, adaptive blocks, the timer chain and what it confirms, and the
blame by which headers vouch for states.

- `src/` is the library. Every function in it is verified against its contract. The state is
  `graph::ConsensusGraphInner`; proof functions named `law_*` state what holds of several operations
  together. Calls into `slab`, `hibitset` and `keccak-hash` stand behind small wrappers in
  `node.rs`, `index_set.rs` and `keccak.rs`, whose contracts are taken on trust.
- `app/` puts locks around the graph, writes what has to outlive it to a database, and performs the
  actions of the internal contract.
- `tests/` runs the library.
