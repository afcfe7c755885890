# hop_hash

A hopscotch hash table, `HashTable<V>`, with `HashMap<K, V, S>` and
`HashSet<T, S>` front ends, written in Verus with its behaviour stated in
contracts and proved.

Each entry held in the slots lives in one of the `HOP_RANGE` (16) buckets of
16 slots that start at the root bucket its hash selects; a per-root counter of
entries per neighbor bucket lets lookups skip buckets, and a 7-bit tag per
slot filters candidates. A free slot beyond the neighborhood is bubbled back;
when that fails the table grows, and an entry whose neighborhood is full (or
that finds no room while the table is rebuilt) goes to an overflow list. An
insertion into a table of fewer than 256 entries never adds to that list.

## Layout

- `src/layout.rs`: constants, tags, load factor (92%), power-of-two sizing.
- `src/slot_model.rs`, `src/table_model.rs`: the multiset model of the slots
  and the hopscotch layout invariant, with the lemmas that keep it.
- `src/hash_table.rs`: the table; its view is the multiset of
  `(hash, value)` entries.
- `src/map_model.rs`: the views of the front ends: a map from
  `(hash, key)` to value, a set of `(hash, value)` pairs.
- `src/hashing.rs`: the call to `BuildHasher::hash_one`.
- `src/hash_map.rs`, `src/hash_set.rs`: the front ends and their iterators.
- `app/lib.rs`: the floating-point debug statistics and the printing of the
  statistics and of the probe histogram.

## Hashes

The table keeps every entry's hash, so it never rehashes a value when it
grows or shrinks. The front ends offer `*_hashed` functions that take the hash
as an argument and have exact contracts; the functions that hash with the
builder state what holds for whatever hash the builder returns, since
`BuildHasher` promises nothing about its results. The set relations
(`is_subset`, `is_disjoint`, ...) and the set iterators (`union`,
`intersection`, ...) have `*_hashed` forms that take the lookup hashes of the
walked values in iteration order.
