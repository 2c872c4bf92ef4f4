# critbit

A crit-bit tree (a binary trie over byte-string keys), written in Verus.

- `src/bits.rs`: LSB-first bit addressing of keys (`get_bit`) and the
  position of the most significant differing bit of two keys (`crit_bit_pos`).
- `src/tree.rs`: the tree, its structural invariant, and `insert`, `delete`,
  `contains`, `is_empty` and `prefix_collect`, each specified over the set
  of stored keys. Bit nodes split keys on a crit bit; length nodes, below
  them, split keys that differ only in trailing zero bytes.
- `src/laws.rs`: properties of `crit_bit_pos` (one result, symmetric, the
  round trip with `get_bit`) and identities over the key sets that the
  contracts of `insert`, `delete` and `prefix_collect` speak of.
- `tests/`: executable tests.
- `app/main.rs`: a small demonstration program.
