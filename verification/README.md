# aethelgard_avl

A self-auditing AVL map over byte-string keys and values, verified with Verus.

* `src/storage.rs` — a generational arena of nodes with a free list.
* `src/keys.rs` — the byte-wise lexicographic key order and its comparison.
* `src/digest.rs` — the per-node digest: the first eight bytes of the BLAKE3
  hash of key, value and the children's digests, read little-endian.
* `src/tree.rs` — the proof-side model: tree shapes over arena slots, the
  search-tree, balance, height and digest predicates, and their lemmas.
* `src/avl.rs` — `SovereignAVL` (insert, delete, lookup with integrity checks,
  audits, in-order walk, dump) with contracts over the map it stores.
* `app/` — `SovereignMap`, a lock-protected front end over caller key/value
  types, the error type with its messages, and printing.
