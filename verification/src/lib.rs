//! A hash table built on hopscotch hashing, with `HashMap` and `HashSet`
//! front ends.
//!
//! An entry held in the table's slots lives within a fixed neighborhood of
//! `HOP_RANGE` buckets of sixteen slots, counted from the root bucket that its
//! hash selects, so that a lookup probes at most that many buckets. An entry
//! goes to a separate overflow list only when no free slot can be had in its
//! neighborhood: on insertion, when the root's whole neighborhood is full of
//! the root's own entries or the table cannot grow any further; during a
//! rebuild, when no free slot can be bubbled into it. Lookups scan that list
//! after the neighborhood. The hopscotch invariants, the bookkeeping of the
//! per-root neighbor counts and the contents of the table are stated as
//! specifications and proved.

pub mod layout;
pub mod slot_model;
pub mod table_model;
pub mod hash_table;
pub mod map_model;
pub mod hashing;
pub mod hash_map;
pub mod hash_set;

use vstd::prelude::*;

verus! {

/// foldhash's randomly seeded hasher builder, the default hasher of the map
/// and the set.
#[verifier::external_type_specification]
#[verifier::external_body]
pub struct ExRandomState(foldhash::fast::RandomState);

/// A `HashMap` whose hasher builder defaults to foldhash's `RandomState`.
pub type HashMap<K, V, S = foldhash::fast::RandomState> = hash_map::HashMap<K, V, S>;

/// A `HashSet` whose hasher builder defaults to foldhash's `RandomState`.
pub type HashSet<K, S = foldhash::fast::RandomState> = hash_set::HashSet<K, S>;

} // verus!

pub use hash_map::Entry;
pub use hash_table::HashTable;
