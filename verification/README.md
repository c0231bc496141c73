# Splay tree, verified

A splay tree of keys of any type with a lawful `Ord`: insert, delete,
membership, in-order listing, min, max, split and merge, where every access
splays the accessed key (or its nearest neighbour) to the root. The splay is
top-down, with the nodes that leave the search path collected in two
assemblies and hung under the new root at the end.

Every operation is proved against a model: the keys of a tree, read in
order, as a sequence that strictly ascends.

- `src/order.rs`: what the tree asks of the key type's `Ord`, and the facts
  about the order it uses.
- `src/seqs.rs`: ascending sequences, the keys below, at most and above a
  key, and lemmas about them.
- `src/node.rs`: nodes, the splay, and the node-level operations.
- `src/cost.rs`: the potential of a tree (the sum over its nodes of the
  base-2 logarithm of their subtree sizes, handled as a product of sizes)
  and the proof that a splay's passes, plus the rise in potential, are at
  most `4 * log2(n) + 1`.
- `src/tree.rs`: `SplayTree` and its public operations with their
  contracts, and the amortized cost of one access and of a run of accesses.
- `src/laws.rs`: properties of the operations taken together (insert then
  delete, split then merge, insertion order, and so on).
- `tests/`: the tests.
