# bptree

A B+ tree map from ordered keys to records, written in Verus and verified.

The tree is generic over its fanout `FANOUT` (a node splits when it reaches
`FANOUT` keys), its key type (`Key`: keys are ordered by an integer rank) and
its record type (`Record`).

- `src/node.rs` — keys, records, leaves, interior nodes; the model of a node
  (its entries, its well-formedness between bounds, its capacity) and the
  lemmas about them. A node keeps its keys, records and children in slots
  (`FANOUT` key slots and `FANOUT + 1` record or child slots when it is made),
  with a count of the keys in use: the first slots are filled, the rest empty.
- `src/contents.rs` — the model of the tree's contents as a sorted sequence of
  (key, record) pairs: insertion, removal, lookup, range.
- `src/bptree.rs` — `BPTree`: search, range search, insertion with splits,
  removal.
- `src/rebalance.rs` — what removal does when a node falls short of keys:
  borrowing from a sibling or merging with it.
- `src/insertion.rs`, `src/range.rs` — lemmas for insertion and range search.
- `src/laws.rs` — properties of the operations taken together.
- `src/keys.rs` — `Key` and `Record` for the integer types and `String`.
