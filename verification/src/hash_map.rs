//! A hash map built on the hopscotch [`HashTable`].
//!
//! `HashMap<K, V, S>` stores key-value pairs; keys are hashed with the hasher
//! builder `S`. The table keeps each pair with the hash its key was given, so
//! the map is viewed as a map from (hash, key) to value. When the builder
//! hashes equal keys equally, as `Hash` and `BuildHasher` require, a key has
//! one hash and the view is an ordinary map from keys to values. The
//! functions that take a hash (`insert_hashed`, `get_hashed`, ...) are exact
//! for every hash; the ones that hash the key themselves state what holds of
//! the hash the builder gives it (`hashes_to`), and the laws at the end say
//! what follows where the builder gives each key one hash.

use core::hash::BuildHasher;
use core::hash::Hash;
use vstd::prelude::*;
use vstd::multiset::Multiset;
use crate::hash_table::HashTable;
use crate::hash_table::Entry as TableEntry;
use crate::hash_table::OccupiedEntry as TableOccupiedEntry;
use crate::hash_table::VacantEntry as TableVacantEntry;
use crate::hash_table::Drain as TableDrain;
use crate::hash_table::IntoIter as TableIntoIter;
use crate::hash_table::Iter as TableIter;
use crate::hash_table::{entry_values, lemma_slot_values_front, same_hashes, slot_values};
use crate::hashing::{hash_one, hashes_by, hashes_consistently, hashes_to};
use crate::layout::{spec_capacity_for, spec_load, spec_slots_for, HOP_RANGE, LANES, MAX_REQUEST};
use crate::map_model::{
    lemma_map_of_empty, lemma_map_of_insert, lemma_map_of_lookup, lemma_map_of_remove,
    lemma_lists, lemma_map_of_kept, lemma_map_of_len, lemma_map_of_replace, lemma_unique_places, lists, map_of,
    lemma_same_keys_unique, place_key, place_value, same_keys, taken_out, unique_keys, seq_of_len,
    keeps_keys, places_of, lemma_places_unique, listed,
};
use crate::slot_model::{
    dropped, kept, lemma_dropped_member, lemma_kept_at, lemma_kept_split, lemma_seq_ms_len,
    lemma_seq_ms_member, lemma_seq_ms_update, lemma_slots_ms_has, lemma_slots_ms_len_same,
    lemma_slots_ms_member, seq_ms, slots_ms,
};

verus! {

broadcast use vstd::multiset::group_multiset_axioms;

/// A hash map implemented with the hopscotch `HashTable` as storage.
#[derive(Clone)]
pub struct HashMap<K, V, S> {
    table: HashTable<(K, V)>,
    hash_builder: S,
}

/// Equality on `K` is identity, as `Eq` on a key type is meant to be.
pub open spec fn key_eq_is_identity<K: PartialEq>() -> bool {
    vstd::laws_eq::obeys_concrete_eq::<K>()
}

/// The map `m` after inserting, in order, the value of each pair of `items`
/// for its key under the hash at the same place of `hashes`.
pub open spec fn after_inserts<K, V>(m: Map<(u64, K), V>, hashes: Seq<u64>, items: Seq<(K, V)>) -> Map<(u64, K), V>
    decreases items.len(),
{
    if items.len() == 0 {
        m
    } else {
        after_inserts(m, hashes, items.drop_last()).insert((hashes[items.len() - 1], items.last().0), items.last().1)
    }
}

/// Every key of `m` is stored under the hash `hash_builder` gives it.
pub open spec fn keys_stored_by<K: Hash, V, S: BuildHasher>(m: Map<(u64, K), V>, hash_builder: S) -> bool {
    forall|q: (u64, K)| #[trigger] m.contains_key(q) ==> hashes_to(hash_builder, q.1, q.0)
}

impl<K, V, S> View for HashMap<K, V, S> {
    type V = Map<(u64, K), V>;

    /// The value of each key, indexed by the hash the key was stored under.
    open spec fn view(&self) -> Map<(u64, K), V> {
        self.entries_map()
    }
}

impl<K, V, S> HashMap<K, V, S> {
    /// The hasher builder the map hashes its keys with.
    pub closed spec fn builder(&self) -> S {
        self.hash_builder
    }

    /// The value of each key, indexed by the hash the key was stored under.
    pub closed spec fn entries_map(&self) -> Map<(u64, K), V> {
        map_of(self.table@)
    }

    /// The number of entries.
    pub closed spec fn spec_len(&self) -> nat {
        self.table@.len()
    }

    /// The number of entries the map holds before it grows.
    pub closed spec fn spec_capacity(&self) -> nat {
        self.table.spec_capacity()
    }

    /// The number of slots of the map's table.
    pub closed spec fn spec_slots(&self) -> int {
        self.table.spec_slots()
    }

    /// The number of entries held in the table's overflow list.
    pub closed spec fn overflow_count(&self) -> nat {
        self.table.overflow_count()
    }

    /// The number of entries `shrink_to_fit` sizes the table for: every
    /// one, those in the overflow list counted once more.
    pub open spec fn shrink_request(&self) -> int {
        (self.spec_len() + self.overflow_count()) as int
    }

    /// The table has as many root buckets as it can ever get.
    pub closed spec fn at_max_size(&self) -> bool {
        self.table.at_max_size()
    }

    /// Re-placing the entries of the table's overflow list into a table of
    /// `slots` slots can meet one with no room: some well-formed table of
    /// that size, holding part of the table's entries, has no vacancy for
    /// the hash of one of them.
    pub closed spec fn rebuild_blocked(&self, slots: int) -> bool {
        self.table.rebuild_blocked(slots)
    }

    /// The capacity is the target load of the slots.
    pub proof fn lemma_capacity_is_load(&self)
        requires
            self.wf(),
        ensures
            self.spec_capacity() == spec_load(self.spec_slots()),
    {
        self.table.lemma_capacity_is_load();
    }

    /// The map is well formed: its table is, and no two entries share a hash
    /// and a key.
    pub closed spec fn wf(&self) -> bool {
        &&& self.table.wf()
        &&& unique_keys(self.table@)
    }

    /// The map's storage is the table `t`.
    pub closed spec fn backed_by(&self, t: HashTable<(K, V)>) -> bool {
        self.table == t
    }

    /// What a map is, given its storage.
    pub proof fn lemma_backed_by(&self, t: HashTable<(K, V)>)
        requires
            self.backed_by(t),
        ensures
            self@ == map_of(t@),
            self.wf() == (t.wf() && unique_keys(t@)),
            self.spec_len() == t@.len(),
            self.spec_capacity() == t.spec_capacity(),
    {
    }

    /// The value stored for `key` under `hash`, if any.
    pub open spec fn spec_get(&self, hash: u64, key: K) -> Option<V> {
        if self@.contains_key((hash, key)) {
            Some(self@[(hash, key)])
        } else {
            None
        }
    }
}

/// The key equality that the map hands to its table.
fn key_matches<K: PartialEq, V>(key: &K, kv: &(K, V)) -> (b: bool)
    requires
        key_eq_is_identity::<K>(),
    ensures
        b == (kv.0 == *key),
{
    proof {
        reveal(vstd::laws_eq::obeys_concrete_eq);
    }
    kv.0 == *key
}

impl<K: Hash + Eq, V, S: BuildHasher> HashMap<K, V, S> {
    /// Creates an empty map with the given hasher builder.
    pub fn with_hasher(hash_builder: S) -> (m: Self)
        ensures
            m.builder() == hash_builder,
            m.wf(),
            m@ == Map::<(u64, K), V>::empty(),
            m.spec_len() == 0,
            m.spec_capacity() == 0,
            m.overflow_count() == 0,
    {
        Self::with_capacity_and_hasher(0, hash_builder)
    }

    /// Creates an empty map with room for at least `capacity` entries, using
    /// the given hasher builder.
    pub fn with_capacity_and_hasher(capacity: usize, hash_builder: S) -> (m: Self)
        requires
            capacity <= MAX_REQUEST,
        ensures
            m.builder() == hash_builder,
            m.wf(),
            m@ == Map::<(u64, K), V>::empty(),
            m.spec_len() == 0,
            m.spec_capacity() == spec_capacity_for(capacity as int),
            m.spec_capacity() >= capacity,
            m.overflow_count() == 0,
    {
        let m = Self { table: HashTable::with_capacity(capacity), hash_builder };
        proof {
            lemma_map_of_empty::<K, V>();
            assert(map_of(m.table@) =~= Map::<(u64, K), V>::empty());
        }
        m
    }

    /// Returns the number of entries in the map.
    pub fn len(&self) -> (r: usize)
        requires
            self.wf(),
        ensures
            r == self.spec_len(),
    {
        self.table.len()
    }

    /// Returns `true` if the map holds no entries.
    pub fn is_empty(&self) -> (r: bool)
        requires
            self.wf(),
        ensures
            r == (self.spec_len() == 0),
            r == (self@ == Map::<(u64, K), V>::empty()),
    {
        let r = self.table.is_empty();
        proof {
            vstd::multiset::lemma_multiset_empty_len(self.table@);
            if r {
                lemma_map_of_empty::<K, V>();
            } else {
                let e = self.table@.choose();
                assert(self.table@.count(e) > 0);
                lemma_map_of_lookup(self.table@, e.0, e.1.0, e.1.1);
                assert(self@.contains_key((e.0, e.1.0)));
            }
        }
        r
    }

    /// Returns the number of entries the map holds before it grows.
    pub fn capacity(&self) -> (r: usize)
        ensures
            r == self.spec_capacity(),
    {
        self.table.capacity()
    }

    /// Removes every entry, keeping the allocated capacity.
    pub fn clear(&mut self)
        requires
            old(self).wf(),
        ensures
            final(self).builder() == old(self).builder(),
            final(self).wf(),
            final(self)@ == Map::<(u64, K), V>::empty(),
            final(self).spec_len() == 0,
            final(self).spec_capacity() == old(self).spec_capacity(),
    {
        self.table.clear();
        proof {
            lemma_map_of_empty::<K, V>();
            assert(map_of(self.table@) =~= Map::<(u64, K), V>::empty());
        }
    }

    /// Inserts `value` for `key` stored under `hash`, and returns the value
    /// it replaces, if any.
    pub fn insert_hashed(&mut self, hash: u64, key: K, value: V) -> (r: Option<V>)
        requires
            old(self).wf(),
            old(self).spec_len() < usize::MAX,
            key_eq_is_identity::<K>(),
        ensures
            final(self).builder() == old(self).builder(),
            final(self).wf(),
            r == old(self).spec_get(hash, key),
            final(self)@ == old(self)@.insert((hash, key), value),
            final(self).spec_len() == old(self).spec_len() + (if r is None { 1int } else { 0int }),
            final(self).spec_capacity() >= old(self).spec_capacity(),
            old(self).spec_len() <= old(self).spec_capacity() ==> final(self).spec_len() <= final(self).spec_capacity()
                || final(self).at_max_size(),
            old(self).spec_len() < HOP_RANGE * LANES ==> final(self).overflow_count() <= old(self).overflow_count(),
    {
        let ghost m0 = self.table@;
        let key_ref = &key;
        let eq = |kv: &(K, V)| -> (b: bool)
            requires key_eq_is_identity::<K>(),
            ensures b == (kv.0 == *key_ref),
        { key_matches(key_ref, kv) };
        let entry = self.table.entry(hash, eq, |kv: &(K, V)| hash_one(&self.hash_builder, &kv.0));
        match entry {
            TableEntry::Occupied(entry) => {
                let ghost e = entry.entry();
                proof {
                    entry.lemma_valid();
                    assert(e.1.0 == key);
                    lemma_map_of_lookup(m0, hash, key, e.1.1);
                }
                let slot = entry.into_mut();
                let mut old_value = value;
                core::mem::swap(&mut slot.1, &mut old_value);
                proof {
                    lemma_map_of_replace(m0, hash, key, e.1.1, value);
                    assert(*slot == (key, value));
                }
                Some(old_value)
            },
            TableEntry::Vacant(entry) => {
                proof {
                    assert forall|w: V| m0.count((hash, (key, w))) == 0 by {
                        if m0.count((hash, (key, w))) > 0 {
                            assert(false);
                        }
                    }
                    lemma_map_of_insert(m0, hash, key, value);
                }
                let slot = entry.insert((key, value));
                proof {
                    assert(*slot == (key, value));
                }
                None
            },
        }
    }

    /// Inserts a key-value pair. Returns `None` if the map held no entry for
    /// the key under the hash the builder gives it, and otherwise replaces the
    /// value and returns the old one.
    pub fn insert(&mut self, key: K, value: V) -> (r: Option<V>)
        requires
            old(self).wf(),
            old(self).spec_len() < usize::MAX,
            key_eq_is_identity::<K>(),
        ensures
            final(self).builder() == old(self).builder(),
            final(self).wf(),
            exists|h: u64|
                #![trigger old(self).spec_get(h, key)]
                {
                    &&& hashes_to(old(self).builder(), key, h)
                    &&& r == old(self).spec_get(h, key)
                    &&& final(self)@ == old(self)@.insert((h, key), value)
                },
            final(self).spec_len() == old(self).spec_len() + (if r is None { 1int } else { 0int }),
            final(self).spec_capacity() >= old(self).spec_capacity(),
            old(self).spec_len() <= old(self).spec_capacity() ==> final(self).spec_len() <= final(self).spec_capacity()
                || final(self).at_max_size(),
            old(self).spec_len() < HOP_RANGE * LANES ==> final(self).overflow_count() <= old(self).overflow_count(),
    {
        let hash = hash_one(&self.hash_builder, &key);
        let r = self.insert_hashed(hash, key, value);
        proof {
            assert(old(self).spec_get(hash, key) == r);
        }
        r
    }

    /// The value of `key` stored under `hash`, if any.
    pub fn get_hashed(&self, hash: u64, key: &K) -> (r: Option<&V>)
        requires
            self.wf(),
            key_eq_is_identity::<K>(),
        ensures
            match r {
                Some(v) => self.spec_get(hash, *key) == Some(*v),
                None => self.spec_get(hash, *key) is None,
            },
    {
        match self.get_key_value_hashed(hash, key) {
            Some(kv) => Some(kv.1),
            None => None,
        }
    }

    /// The stored key and value of `key` stored under `hash`, if any.
    pub fn get_key_value_hashed(&self, hash: u64, key: &K) -> (r: Option<(&K, &V)>)
        requires
            self.wf(),
            key_eq_is_identity::<K>(),
        ensures
            match r {
                Some(kv) => *kv.0 == *key && self.spec_get(hash, *key) == Some(*kv.1),
                None => self.spec_get(hash, *key) is None,
            },
    {
        let eq = |kv: &(K, V)| -> (b: bool)
            requires key_eq_is_identity::<K>(),
            ensures b == (kv.0 == *key),
        { key_matches(key, kv) };
        match self.table.find(hash, eq) {
            Some(kv) => {
                proof {
                    lemma_map_of_lookup(self.table@, hash, *key, kv.1);
                }
                Some((&kv.0, &kv.1))
            },
            None => {
                proof {
                    assert forall|w: V| self.table@.count((hash, (*key, w))) == 0 by {
                        if self.table@.count((hash, (*key, w))) > 0 {
                            assert(false);
                        }
                    }
                }
                None
            },
        }
    }

    /// Returns a reference to the value of `key`.
    pub fn get(&self, key: &K) -> (r: Option<&V>)
        requires
            self.wf(),
            key_eq_is_identity::<K>(),
        ensures
            exists|h: u64|
                #![trigger self.spec_get(h, *key)]
                hashes_to(self.builder(), *key, h) && match r {
                    Some(v) => self.spec_get(h, *key) == Some(*v),
                    None => self.spec_get(h, *key) is None,
                },
    {
        let hash = hash_one(&self.hash_builder, key);
        let r = self.get_hashed(hash, key);
        proof {
            let _ = self.spec_get(hash, *key);
        }
        r
    }

    /// Returns the stored key and the value of `key`.
    pub fn get_key_value(&self, key: &K) -> (r: Option<(&K, &V)>)
        requires
            self.wf(),
            key_eq_is_identity::<K>(),
        ensures
            exists|h: u64|
                #![trigger self.spec_get(h, *key)]
                hashes_to(self.builder(), *key, h) && match r {
                    Some(kv) => *kv.0 == *key && self.spec_get(h, *key) == Some(*kv.1),
                    None => self.spec_get(h, *key) is None,
                },
    {
        let hash = hash_one(&self.hash_builder, key);
        let r = self.get_key_value_hashed(hash, key);
        proof {
            let _ = self.spec_get(hash, *key);
        }
        r
    }

    /// Returns `true` if the map holds an entry for `key` under `hash`.
    pub fn contains_key_hashed(&self, hash: u64, key: &K) -> (r: bool)
        requires
            self.wf(),
            key_eq_is_identity::<K>(),
        ensures
            r == self@.contains_key((hash, *key)),
    {
        self.get_hashed(hash, key).is_some()
    }

    /// Returns `true` if the map holds an entry for `key`.
    pub fn contains_key(&self, key: &K) -> (r: bool)
        requires
            self.wf(),
            key_eq_is_identity::<K>(),
        ensures
            exists|h: u64|
                #![trigger self@.contains_key((h, *key))]
                hashes_to(self.builder(), *key, h) && r == self@.contains_key((h, *key)),
    {
        let hash = hash_one(&self.hash_builder, key);
        self.contains_key_hashed(hash, key)
    }

    /// A mutable reference to the value of `key` stored under `hash`, if any.
    pub fn get_mut_hashed(&mut self, hash: u64, key: &K) -> (r: Option<&mut V>)
        requires
            old(self).wf(),
            key_eq_is_identity::<K>(),
        ensures
            final(self).builder() == old(self).builder(),
            final(self).wf(),
            final(self).spec_len() == old(self).spec_len(),
            final(self).spec_capacity() == old(self).spec_capacity(),
            match r {
                Some(v) => {
                    &&& old(self).spec_get(hash, *key) == Some(*v)
                    &&& final(self)@ == old(self)@.insert((hash, *key), *final(v))
                },
                None => {
                    &&& old(self).spec_get(hash, *key) is None
                    &&& final(self)@ == old(self)@
                },
            },
    {
        let ghost m0 = self.table@;
        let eq = |kv: &(K, V)| -> (b: bool)
            requires key_eq_is_identity::<K>(),
            ensures b == (kv.0 == *key),
        { key_matches(key, kv) };
        match self.table.find_mut(hash, eq) {
            Some(kv) => {
                proof {
                    lemma_map_of_lookup(m0, hash, *key, kv.1);
                    assert forall|w: V| #![trigger m0.remove((hash, *kv)).insert((hash, (*key, w)))]
                        unique_keys(m0.remove((hash, *kv)).insert((hash, (*key, w))))
                        && map_of(m0.remove((hash, *kv)).insert((hash, (*key, w)))) =~= map_of(m0).insert((hash, *key), w) by {
                        lemma_map_of_replace(m0, hash, *key, kv.1, w);
                    }
                }
                Some(&mut kv.1)
            },
            None => {
                proof {
                    assert forall|w: V| m0.count((hash, (*key, w))) == 0 by {
                        if m0.count((hash, (*key, w))) > 0 {
                            assert(false);
                        }
                    }
                }
                None
            },
        }
    }

    /// Returns a mutable reference to the value of `key`.
    pub fn get_mut(&mut self, key: &K) -> (r: Option<&mut V>)
        requires
            old(self).wf(),
            key_eq_is_identity::<K>(),
        ensures
            final(self).builder() == old(self).builder(),
            final(self).wf(),
            final(self).spec_len() == old(self).spec_len(),
            final(self).spec_capacity() == old(self).spec_capacity(),
            exists|h: u64|
                #![trigger old(self).spec_get(h, *key)]
                hashes_to(old(self).builder(), *key, h) && match r {
                    Some(v) => {
                        &&& old(self).spec_get(h, *key) == Some(*v)
                        &&& final(self)@ == old(self)@.insert((h, *key), *final(v))
                    },
                    None => {
                        &&& old(self).spec_get(h, *key) is None
                        &&& final(self)@ == old(self)@
                    },
                },
    {
        let hash = hash_one(&self.hash_builder, key);
        let ghost before = *self;
        let r = self.get_mut_hashed(hash, key);
        proof {
            let _ = before.spec_get(hash, *key);
        }
        r
    }

    /// Removes the entry of `key` stored under `hash`, returning its key and
    /// value.
    pub fn remove_entry_hashed(&mut self, hash: u64, key: &K) -> (r: Option<(K, V)>)
        requires
            old(self).wf(),
            key_eq_is_identity::<K>(),
        ensures
            final(self).builder() == old(self).builder(),
            final(self).wf(),
            match r {
                Some(kv) => kv.0 == *key && old(self).spec_get(hash, *key) == Some(kv.1),
                None => old(self).spec_get(hash, *key) is None,
            },
            final(self)@ == old(self)@.remove((hash, *key)),
            final(self).spec_len() == old(self).spec_len() - (if r is Some { 1int } else { 0int }),
            final(self).spec_capacity() == old(self).spec_capacity(),
    {
        let ghost m0 = self.table@;
        let eq = |kv: &(K, V)| -> (b: bool)
            requires key_eq_is_identity::<K>(),
            ensures b == (kv.0 == *key),
        { key_matches(key, kv) };
        let r = self.table.remove(hash, eq);
        proof {
            match &r {
                Some(kv) => {
                    lemma_map_of_lookup(m0, hash, *key, kv.1);
                    lemma_map_of_remove(m0, hash, *key, kv.1);
                },
                Option::None => {
                    assert forall|w: V| m0.count((hash, (*key, w))) == 0 by {
                        if m0.count((hash, (*key, w))) > 0 {
                            assert(false);
                        }
                    }
                    assert(map_of(m0).remove((hash, *key)) =~= map_of(m0));
                },
            }
        }
        r
    }

    /// Removes the entry of `key` stored under `hash`, returning its value.
    pub fn remove_hashed(&mut self, hash: u64, key: &K) -> (r: Option<V>)
        requires
            old(self).wf(),
            key_eq_is_identity::<K>(),
        ensures
            final(self).builder() == old(self).builder(),
            final(self).wf(),
            r == old(self).spec_get(hash, *key),
            final(self)@ == old(self)@.remove((hash, *key)),
            final(self).spec_len() == old(self).spec_len() - (if r is Some { 1int } else { 0int }),
            final(self).spec_capacity() == old(self).spec_capacity(),
    {
        match self.remove_entry_hashed(hash, key) {
            Some(kv) => Some(kv.1),
            None => None,
        }
    }

    /// Removes `key` from the map, returning its value if it was present.
    pub fn remove(&mut self, key: &K) -> (r: Option<V>)
        requires
            old(self).wf(),
            key_eq_is_identity::<K>(),
        ensures
            final(self).builder() == old(self).builder(),
            final(self).wf(),
            exists|h: u64|
                #![trigger old(self).spec_get(h, *key)]
                {
                    &&& hashes_to(old(self).builder(), *key, h)
                    &&& r == old(self).spec_get(h, *key)
                    &&& final(self)@ == old(self)@.remove((h, *key))
                },
            final(self).spec_len() == old(self).spec_len() - (if r is Some { 1int } else { 0int }),
            final(self).spec_capacity() == old(self).spec_capacity(),
    {
        let hash = hash_one(&self.hash_builder, key);
        let ghost before = *self;
        let r = self.remove_hashed(hash, key);
        proof {
            let _ = before.spec_get(hash, *key);
        }
        r
    }

    /// Removes `key` from the map, returning the stored key and its value if
    /// it was present.
    pub fn remove_entry(&mut self, key: &K) -> (r: Option<(K, V)>)
        requires
            old(self).wf(),
            key_eq_is_identity::<K>(),
        ensures
            final(self).builder() == old(self).builder(),
            final(self).wf(),
            exists|h: u64|
                #![trigger old(self).spec_get(h, *key)]
                {
                    &&& hashes_to(old(self).builder(), *key, h)
                    &&& match r {
                        Some(kv) => kv.0 == *key && old(self).spec_get(h, *key) == Some(kv.1),
                        None => old(self).spec_get(h, *key) is None,
                    }
                    &&& final(self)@ == old(self)@.remove((h, *key))
                },
            final(self).spec_len() == old(self).spec_len() - (if r is Some { 1int } else { 0int }),
            final(self).spec_capacity() == old(self).spec_capacity(),
    {
        let hash = hash_one(&self.hash_builder, key);
        let ghost before = *self;
        let r = self.remove_entry_hashed(hash, key);
        proof {
            let _ = before.spec_get(hash, *key);
        }
        r
    }

    /// Reserves room for at least `additional` more entries.
    pub fn reserve(&mut self, additional: usize)
        requires
            old(self).wf(),
            old(self).spec_len() + additional <= MAX_REQUEST,
        ensures
            final(self).builder() == old(self).builder(),
            final(self).wf(),
            final(self)@ == old(self)@,
            final(self).spec_len() == old(self).spec_len(),
            final(self).spec_capacity() >= old(self).spec_len() + additional,
            final(self).spec_capacity() >= old(self).spec_capacity(),
            old(self).spec_len() + additional <= old(self).spec_capacity() ==> *final(self) == *old(self),
            old(self).spec_len() + additional > old(self).spec_capacity() ==> final(self).spec_capacity()
                >= spec_capacity_for(old(self).spec_len() + additional),
            old(self).spec_len() + additional > old(self).spec_capacity() && old(self).overflow_count() == 0 ==> {
                &&& final(self).spec_capacity() == spec_capacity_for(old(self).spec_len() + additional)
                &&& final(self).spec_slots() == spec_slots_for(old(self).spec_len() + additional)
            },
            old(self).spec_len() + additional > old(self).spec_capacity() ==> {
                ||| final(self).spec_slots() == spec_slots_for(old(self).spec_len() + additional)
                    && final(self).spec_capacity() == spec_capacity_for(old(self).spec_len() + additional)
                ||| old(self).rebuild_blocked(spec_slots_for(old(self).spec_len() + additional))
            },
            old(self).spec_len() < HOP_RANGE * LANES ==> final(self).overflow_count() <= old(self).overflow_count(),
    {
        self.table.reserve(additional, |kv: &(K, V)| hash_one(&self.hash_builder, &kv.0));
    }

    /// Shrinks the capacity of the map as much as possible; an empty map
    /// gives up its allocation.
    pub fn shrink_to_fit(&mut self)
        requires
            old(self).wf(),
            2 * old(self).spec_len() <= MAX_REQUEST,
        ensures
            final(self).builder() == old(self).builder(),
            final(self).wf(),
            final(self)@ == old(self)@,
            final(self).spec_len() == old(self).spec_len(),
            old(self).spec_len() == 0 ==> final(self).spec_capacity() == 0 && final(self).spec_slots() == 0,
            old(self).spec_len() > 0 && spec_slots_for(old(self).shrink_request()) >= old(self).spec_slots()
                ==> *final(self) == *old(self),
            old(self).spec_len() > 0 && spec_slots_for(old(self).shrink_request()) < old(self).spec_slots() ==> {
                &&& final(self).spec_capacity() >= spec_capacity_for(old(self).shrink_request())
                &&& final(self).spec_capacity() >= final(self).spec_len()
            },
            old(self).spec_len() > 0 && spec_slots_for(old(self).shrink_request()) < old(self).spec_slots()
                && old(self).overflow_count() == 0 ==> {
                &&& final(self).spec_slots() == spec_slots_for(old(self).shrink_request())
                &&& final(self).spec_capacity() == spec_capacity_for(old(self).shrink_request())
                &&& final(self).spec_capacity() <= old(self).spec_capacity()
            },
            old(self).spec_len() > 0 && spec_slots_for(old(self).shrink_request()) < old(self).spec_slots() ==> {
                ||| final(self).spec_slots() == spec_slots_for(old(self).shrink_request())
                    && final(self).spec_capacity() == spec_capacity_for(old(self).shrink_request())
                    && final(self).spec_capacity() <= old(self).spec_capacity()
                ||| old(self).rebuild_blocked(spec_slots_for(old(self).shrink_request()))
            },
            old(self).spec_capacity() >= old(self).spec_len() ==> final(self).spec_capacity()
                >= final(self).spec_len(),
            old(self).spec_len() < HOP_RANGE * LANES ==> final(self).overflow_count() <= old(self).overflow_count(),
    {
        self.table.shrink_to_fit(|kv: &(K, V)| hash_one(&self.hash_builder, &kv.0));
    }
}

impl<K, V, S> HashMap<K, V, S> {
    /// Keeps only the pairs for which `f` returns `true`; `f` is called once
    /// on each pair.
    pub fn retain<F: FnMut(&K, &V) -> bool>(&mut self, mut f: F)
        requires
            old(self).wf(),
            forall|k: &K, v: &V| f.requires((k, v)),
        ensures
            final(self).wf(),
            final(self).builder() == old(self).builder(),
            final(self).spec_capacity() == old(self).spec_capacity(),
            forall|q: (u64, K)| #[trigger] final(self)@.contains_key(q) ==> old(self)@.contains_key(q)
                && final(self)@[q] == old(self)@[q],
            forall|q: (u64, K)| #[trigger] old(self)@.contains_key(q) ==> f.ensures(
                (&q.1, &old(self)@[q]),
                final(self)@.contains_key(q),
            ),
    {
        let ghost p0 = self.table.places();
        let ghost t0 = self.table;
        let ghost f0 = f;
        proof {
            self.table.lemma_places();
            lemma_unique_places(p0);
        }
        let n = self.table.slot_count();
        let mut keep_slots: Vec<bool> = Vec::new();
        let mut i: usize = 0;
        while i < n
            invariant
                f == f0,
                self.table == t0,
                p0 == t0.places(),
                n == t0.num_slots(),
                n <= p0.len(),
                i <= n,
                keep_slots@.len() == i,
                forall|k: &K, v: &V| f.requires((k, v)),
                forall|j: int| 0 <= j < i && p0[j] is Some ==> f.ensures(
                    (&place_key(p0[j]).1, &place_value(p0[j])),
                    #[trigger] keep_slots@[j],
                ),
            decreases n - i,
        {
            let b = match self.table.slot_ref(i) {
                Some(kv) => f(&kv.0, &kv.1),
                None => true,
            };
            keep_slots.push(b);
            i = i + 1;
        }
        let m = self.table.overflow_len();
        proof {
            assert forall|t: int| 0 <= t < m implies (#[trigger] p0[n + t]) is Some by {
                assert(t0.places()[n + t] is Some);
            }
        }
        let mut keep_overflow: Vec<bool> = Vec::new();
        let mut j: usize = 0;
        while j < m
            invariant
                f == f0,
                self.table == t0,
                p0 == t0.places(),
                n == t0.num_slots(),
                m == p0.len() - n,
                j <= m,
                keep_overflow@.len() == j,
                forall|k: &K, v: &V| f.requires((k, v)),
                forall|t: int| 0 <= t < m ==> (#[trigger] p0[n + t]) is Some,
                keep_slots@.len() == n,
                forall|i: int| 0 <= i < n && p0[i] is Some ==> f.ensures(
                    (&place_key(p0[i]).1, &place_value(p0[i])),
                    #[trigger] keep_slots@[i],
                ),
                forall|t: int| 0 <= t < j ==> f.ensures(
                    (&place_key(p0[n + t]).1, &place_value(p0[n + t])),
                    #[trigger] keep_overflow@[t],
                ),
            decreases m - j,
        {
            let kv = self.table.overflow_ref(j);
            let b = f(&kv.0, &kv.1);
            keep_overflow.push(b);
            j = j + 1;
        }
        let ghost keep = keep_slots@.add(keep_overflow@);
        let _removed = self.table.retain_places(&keep_slots, &keep_overflow);
        proof {
            lemma_map_of_kept(p0, keep);
            let m0 = t0@;
            assert forall|q: (u64, K)| #[trigger] self@.contains_key(q) implies old(self)@.contains_key(q)
                && self@[q] == old(self)@[q] by {
                let i = choose|i: int| 0 <= i < p0.len() && p0[i] is Some && place_key(p0[i]) == q;
                assert(map_of(kept(p0, keep)).contains_key(place_key(p0[i])));
                lemma_slots_ms_has(p0, i);
                let e = p0[i]->0;
                lemma_map_of_lookup(m0, e.0, e.1.0, e.1.1);
            }
            assert forall|q: (u64, K)| #[trigger] old(self)@.contains_key(q) implies f.ensures(
                (&q.1, &old(self)@[q]),
                self@.contains_key(q),
            ) by {
                let w = choose|w: V| m0.count((q.0, (q.1, w))) > 0;
                lemma_map_of_lookup(m0, q.0, q.1, w);
                lemma_slots_ms_member(p0, (q.0, (q.1, w)));
                let i = choose|i: int| 0 <= i < p0.len() && p0[i] == Some((q.0, (q.1, w)));
                assert(map_of(kept(p0, keep)).contains_key(place_key(p0[i])) <==> keep[i]);
                if i < n {
                    assert(keep[i] == keep_slots@[i]);
                    assert(f.ensures((&place_key(p0[i]).1, &place_value(p0[i])), keep_slots@[i]));
                } else {
                    assert(keep[i] == keep_overflow@[i - n]);
                    assert(p0[n + (i - n)] == p0[i]);
                    assert(f.ensures((&place_key(p0[i]).1, &place_value(p0[i])), keep_overflow@[i - n]));
                }
                assert(place_key(p0[i]) == q);
                assert(place_value(p0[i]) == old(self)@[q]);
                assert(self@.contains_key(q) == keep[i]);
            }
        }
    }
}

impl<K, V, S> HashMap<K, V, S> {
    /// Calls `f` once on every pair, letting it change the value, and
    /// returns for each place whether `f`'s answer differs from `invert`:
    /// the flags of the slots, then those of the overflow entries.
    fn decide_mut<F: FnMut(&K, &mut V) -> bool>(&mut self, mut f: F, invert: bool) -> (flags: (Vec<bool>, Vec<bool>))
        requires
            old(self).wf(),
            forall|k: &K, v: &mut V| f.requires((k, v)),
        ensures
            final(self).builder() == old(self).builder(),
            final(self).table.wf(),
            final(self).table.spec_capacity() == old(self).table.spec_capacity(),
            final(self).table.num_slots() == old(self).table.num_slots(),
            final(self).table.places().len() == old(self).table.places().len(),
            flags.0@.len() == old(self).table.num_slots(),
            flags.1@.len() == old(self).table.places().len() - old(self).table.num_slots(),
            same_keys(old(self).table.places(), final(self).table.places()),
            forall|i: int| 0 <= i < old(self).table.places().len() && (#[trigger] old(self).table.places()[i]) is Some
                ==> exists|r: &mut V| {
                    &&& *r == place_value(old(self).table.places()[i])
                    &&& *final(r) == place_value(final(self).table.places()[i])
                    &&& f.ensures(
                        (&place_key(old(self).table.places()[i]).1, r),
                        flags.0@.add(flags.1@)[i] != invert,
                    )
                },
    {
        let ghost p0 = self.table.places();
        let ghost f0 = f;
        proof {
            self.table.lemma_places();
        }
        let n = self.table.slot_count();
        let mut keep_slots: Vec<bool> = Vec::new();
        let mut i: usize = 0;
        while i < n
            invariant
                self.builder() == old(self).builder(),
                f == f0,
                forall|k: &K, v: &mut V| f.requires((k, v)),
                self.table.wf(),
                self.table.spec_capacity() == old(self).table.spec_capacity(),
                self.table.num_slots() == n,
                n == old(self).table.num_slots(),
                n <= p0.len(),
                p0 == old(self).table.places(),
                self.table.places().len() == p0.len(),
                same_keys(p0, self.table.places()),
                i <= n,
                keep_slots@.len() == i,
                forall|t: int| i <= t < p0.len() ==> self.table.places()[t] == p0[t],
                forall|t: int| 0 <= t < i && (#[trigger] p0[t]) is Some ==> exists|r: &mut V| {
                    &&& *r == place_value(p0[t])
                    &&& *final(r) == place_value(self.table.places()[t])
                    &&& f.ensures((&place_key(p0[t]).1, r), keep_slots@[t] != invert)
                },
            decreases n - i,
        {
            let occupied = self.table.slot_ref(i).is_some();
            if occupied {
                let kv = self.table.slot_mut(i);
                let b = f(&kv.0, &mut kv.1);
                keep_slots.push(b != invert);
            } else {
                keep_slots.push(true);
            }
            i = i + 1;
        }
        let m = self.table.overflow_len();
        let mut keep_overflow: Vec<bool> = Vec::new();
        let mut j: usize = 0;
        while j < m
            invariant
                self.builder() == old(self).builder(),
                f == f0,
                forall|k: &K, v: &mut V| f.requires((k, v)),
                self.table.wf(),
                self.table.spec_capacity() == old(self).table.spec_capacity(),
                self.table.num_slots() == n,
                n == old(self).table.num_slots(),
                p0 == old(self).table.places(),
                m == p0.len() - n,
                self.table.places().len() == p0.len(),
                same_keys(p0, self.table.places()),
                j <= m,
                keep_slots@.len() == n,
                keep_overflow@.len() == j,
                forall|t: int| n + j <= t < p0.len() ==> self.table.places()[t] == p0[t],
                forall|t: int| 0 <= t < n && (#[trigger] p0[t]) is Some ==> exists|r: &mut V| {
                    &&& *r == place_value(p0[t])
                    &&& *final(r) == place_value(self.table.places()[t])
                    &&& f.ensures((&place_key(p0[t]).1, r), keep_slots@[t] != invert)
                },
                forall|t: int| n <= t < n + j && (#[trigger] p0[t]) is Some ==> exists|r: &mut V| {
                    &&& *r == place_value(p0[t])
                    &&& *final(r) == place_value(self.table.places()[t])
                    &&& f.ensures((&place_key(p0[t]).1, r), keep_overflow@[t - n] != invert)
                },
            decreases m - j,
        {
            let kv = self.table.overflow_mut(j);
            let b = f(&kv.0, &mut kv.1);
            keep_overflow.push(b != invert);
            j = j + 1;
        }
        proof {
            let flags = keep_slots@.add(keep_overflow@);
            assert forall|t: int| 0 <= t < p0.len() && (#[trigger] p0[t]) is Some implies exists|r: &mut V| {
                &&& *r == place_value(p0[t])
                &&& *final(r) == place_value(self.table.places()[t])
                &&& f.ensures((&place_key(p0[t]).1, r), flags[t] != invert)
            } by {
                if t < n {
                    assert(flags[t] == keep_slots@[t]);
                } else {
                    assert(flags[t] == keep_overflow@[t - n]);
                }
            }
        }
        (keep_slots, keep_overflow)
    }
}

impl<K, V, S> HashMap<K, V, S> {
    /// Keeps only the pairs for which `f` returns `true`; `f` is called once
    /// on each pair and may change its value.
    pub fn retain_mut<F: FnMut(&K, &mut V) -> bool>(&mut self, f: F)
        requires
            old(self).wf(),
            forall|k: &K, v: &mut V| f.requires((k, v)),
        ensures
            final(self).wf(),
            final(self).builder() == old(self).builder(),
            final(self).spec_capacity() == old(self).spec_capacity(),
            forall|q: (u64, K)| #[trigger] final(self)@.contains_key(q) ==> old(self)@.contains_key(q),
            forall|q: (u64, K)| #[trigger] old(self)@.contains_key(q) && final(self)@.contains_key(q) ==> (exists|m: &mut V| *m == old(self)@[q] && *final(m) == final(self)@[q] && #[trigger] f.ensures((&q.1, m), true)),
            forall|q: (u64, K)| #[trigger] old(self)@.contains_key(q) && !final(self)@.contains_key(q) ==> (exists|m: &mut V|
                *m == old(self)@[q] && #[trigger] f.ensures((&q.1, m), false)),
    {
        let ghost p0 = self.table.places();
        let ghost m0 = self.table@;
        proof {
            self.table.lemma_places();
            lemma_unique_places(p0);
        }
        let flags = self.decide_mut(f, false);
        let ghost p1 = self.table.places();
        let ghost keep = flags.0@.add(flags.1@);
        proof {
            lemma_same_keys_unique(p0, p1);
        }
        let _removed = self.table.retain_places(&flags.0, &flags.1);
        proof {
            lemma_map_of_kept(p1, keep);
            assert forall|q: (u64, K)| #[trigger] self@.contains_key(q) implies old(self)@.contains_key(q) by {
                let i = choose|i: int| 0 <= i < p1.len() && p1[i] is Some && place_key(p1[i]) == q;
                assert(p0[i] is Some && place_key(p0[i]) == place_key(p1[i]));
                lemma_slots_ms_has(p0, i);
                let e = p0[i]->0;
                lemma_map_of_lookup(m0, e.0, e.1.0, e.1.1);
            }
            assert forall|q: (u64, K)| #[trigger] old(self)@.contains_key(q) implies (self@.contains_key(q) ==> (exists|m: &mut V| *m == old(self)@[q] && *final(m) == self@[q] && #[trigger] f.ensures((&q.1, m), true))) && (!self@.contains_key(q) ==> (exists|m: &mut V| *m == old(self)@[q] && #[trigger] f.ensures((&q.1, m), false))) by {
                let w = choose|w: V| m0.count((q.0, (q.1, w))) > 0;
                lemma_map_of_lookup(m0, q.0, q.1, w);
                lemma_slots_ms_member(p0, (q.0, (q.1, w)));
                let i = choose|i: int| 0 <= i < p0.len() && p0[i] == Some((q.0, (q.1, w)));
                assert(p0[i] is Some);
                assert(p1[i] is Some && place_key(p1[i]) == q);
                assert(map_of(kept(p1, keep)).contains_key(place_key(p1[i])) <==> keep[i]);
                let r = choose|r: &mut V| {
                    &&& *r == place_value(p0[i])
                    &&& *final(r) == place_value(p1[i])
                    &&& f.ensures((&place_key(p0[i]).1, r), keep[i] != false)
                };
                if keep[i] {
                    assert(map_of(kept(p1, keep))[place_key(p1[i])] == place_value(p1[i]));
                    assert((exists|m: &mut V| *m == old(self)@[q] && *final(m) == self@[q] && #[trigger] f.ensures((&q.1, m), true)));
                } else {
                    assert((exists|m: &mut V| *m == old(self)@[q] && #[trigger] f.ensures((&q.1, m), false)));
                }
            }
        }
    }

    /// Removes the pairs for which `f` returns `true` and returns an iterator
    /// over them; `f` is called once on each pair and may change its value.
    /// The pairs are removed by this call, whether or not the iterator is
    /// used.
    pub fn extract_if<F: FnMut(&K, &mut V) -> bool>(&mut self, f: F) -> (it: ExtractIf<K, V>)
        requires
            old(self).wf(),
            forall|k: &K, v: &mut V| f.requires((k, v)),
        ensures
            final(self).wf(),
            final(self).builder() == old(self).builder(),
            final(self).spec_capacity() == old(self).spec_capacity(),
            forall|q: (u64, K)| #[trigger] final(self)@.contains_key(q) ==> old(self)@.contains_key(q),
            forall|q: (u64, K)| #[trigger] old(self)@.contains_key(q) && final(self)@.contains_key(q) ==> (exists|m: &mut V| *m == old(self)@[q] && *final(m) == final(self)@[q] && #[trigger] f.ensures((&q.1, m), false)),
            forall|q: (u64, K)| #[trigger] old(self)@.contains_key(q) && !final(self)@.contains_key(q) ==> (exists|m: &mut V|
                *m == old(self)@[q] && it.remaining().contains((q.1, *final(m))) && #[trigger] f.ensures((&q.1, m), true)),
            forall|i: int| 0 <= i < it.remaining().len() ==> taken_out(
                old(self)@,
                final(self)@,
                (#[trigger] it.remaining()[i]).0,
            ),
            it.remaining().len() + final(self).spec_len() == old(self).spec_len(),
    {
        let ghost p0 = self.table.places();
        let ghost m0 = self.table@;
        proof {
            self.table.lemma_places();
            lemma_unique_places(p0);
        }
        let flags = self.decide_mut(f, true);
        let ghost p1 = self.table.places();
        let ghost keep = flags.0@.add(flags.1@);
        proof {
            lemma_same_keys_unique(p0, p1);
        }
        let removed = self.table.retain_places(&flags.0, &flags.1);
        let it = ExtractIf { items: removed };
        proof {
            lemma_map_of_kept(p1, keep);
            crate::map_model::lemma_places_unique(p1);
            let rem = it.remaining();
            assert forall|q: (u64, K)| #[trigger] self@.contains_key(q) implies old(self)@.contains_key(q) by {
                let i = choose|i: int| 0 <= i < p1.len() && p1[i] is Some && place_key(p1[i]) == q;
                assert(p0[i] is Some && place_key(p0[i]) == place_key(p1[i]));
                lemma_slots_ms_has(p0, i);
                let e = p0[i]->0;
                lemma_map_of_lookup(m0, e.0, e.1.0, e.1.1);
            }
            assert forall|q: (u64, K)| #[trigger] old(self)@.contains_key(q) implies (self@.contains_key(q) ==> (exists|m: &mut V| *m == old(self)@[q] && *final(m) == self@[q] && #[trigger] f.ensures((&q.1, m), false))) && (!self@.contains_key(q) ==> (exists|m: &mut V|
                *m == old(self)@[q] && it.remaining().contains((q.1, *final(m))) && #[trigger] f.ensures((&q.1, m), true))) by {
                let w = choose|w: V| m0.count((q.0, (q.1, w))) > 0;
                lemma_map_of_lookup(m0, q.0, q.1, w);
                lemma_slots_ms_member(p0, (q.0, (q.1, w)));
                let i = choose|i: int| 0 <= i < p0.len() && p0[i] == Some((q.0, (q.1, w)));
                assert(p0[i] is Some);
                assert(p1[i] is Some && place_key(p1[i]) == q);
                assert(map_of(kept(p1, keep)).contains_key(place_key(p1[i])) <==> keep[i]);
                let r = choose|r: &mut V| {
                    &&& *r == place_value(p0[i])
                    &&& *final(r) == place_value(p1[i])
                    &&& f.ensures((&place_key(p0[i]).1, r), keep[i] != true)
                };
                if keep[i] {
                    assert(map_of(kept(p1, keep))[place_key(p1[i])] == place_value(p1[i]));
                    assert((exists|m: &mut V| *m == old(self)@[q] && *final(m) == self@[q] && #[trigger] f.ensures((&q.1, m), false)));
                } else {
                    let e1 = p1[i]->0;
                    lemma_slots_ms_has(p1, i);
                    assert(slots_ms(p1).count((e1.0, (e1.1.0, e1.1.1))) == 1);
                    lemma_kept_at(p1, keep, i);
                    lemma_seq_ms_member(removed@, e1);
                    let j = choose|j: int| 0 <= j < removed@.len() && removed@[j] == e1;
                    assert(rem[removed@.len() - 1 - j] == e1.1);
                    assert(e1.1 == (q.1, place_value(p1[i])));
                    assert(rem.contains((q.1, place_value(p1[i]))));
                    assert((exists|m: &mut V| *m == old(self)@[q] && it.remaining().contains((q.1, *final(m))) && #[trigger] f.ensures((&q.1, m), true)));
                }
            }
            assert forall|i: int| 0 <= i < rem.len() implies taken_out(old(self)@, self@, (#[trigger] rem[i]).0) by {
                let j = removed@.len() - 1 - i;
                let e = removed@[j];
                assert(rem[i] == e.1);
                lemma_seq_ms_update(removed@, j, e);
                lemma_dropped_member(p1, keep, e);
                let t = choose|t: int| 0 <= t < p1.len() && p1[t] == Some(e) && !keep[t];
                assert(place_key(p1[t]) == (e.0, e.1.0));
                assert(p0[t] is Some && place_key(p0[t]) == place_key(p1[t]));
                lemma_slots_ms_has(p0, t);
                let e0 = p0[t]->0;
                lemma_map_of_lookup(m0, e0.0, e0.1.0, e0.1.1);
                assert(!map_of(kept(p1, keep)).contains_key(place_key(p1[t])));
                assert(old(self)@.contains_key((e.0, rem[i].0)));
                assert(!self@.contains_key((e.0, rem[i].0)));
            }
            lemma_seq_ms_len(removed@);
            lemma_kept_split(p1, keep);
            lemma_slots_ms_len_same(p0, p1);
        }
        it
    }
}

/// An iterator over the pairs that [`HashMap::extract_if`] took out of the
/// map.
pub struct ExtractIf<K, V> {
    items: Vec<(u64, (K, V))>,
}

impl<K, V> ExtractIf<K, V> {
    /// The pairs still to be yielded, in order.
    pub closed spec fn remaining(&self) -> Seq<(K, V)> {
        self.items@.reverse().map_values(|e: (u64, (K, V))| e.1)
    }

    /// Yields the next extracted pair.
    pub fn next(&mut self) -> (r: Option<(K, V)>)
        ensures
            match r {
                Some(kv) => {
                    &&& old(self).remaining().len() > 0
                    &&& kv == old(self).remaining()[0]
                    &&& final(self).remaining() == old(self).remaining().drop_first()
                },
                None => {
                    &&& old(self).remaining().len() == 0
                    &&& final(self).remaining() == old(self).remaining()
                },
            },
    {
        proof {
            if self.items@.len() > 0 {
                assert(self.items@.reverse().map_values(|e: (u64, (K, V))| e.1).drop_first()
                    =~= self.items@.drop_last().reverse().map_values(|e: (u64, (K, V))| e.1));
            }
        }
        match self.items.pop() {
            Some(e) => Some(e.1),
            None => None,
        }
    }
}

impl<K: Hash + Eq, V, S: BuildHasher + Default> HashMap<K, V, S> {
    /// Creates an empty map with the default hasher builder.
    pub fn new() -> (m: Self)
        ensures
            m.wf(),
            m@ == Map::<(u64, K), V>::empty(),
            m.spec_len() == 0,
    {
        Self::with_hasher(S::default())
    }

    /// Creates an empty map with room for at least `capacity` entries, with
    /// the default hasher builder.
    pub fn with_capacity(capacity: usize) -> (m: Self)
        requires
            capacity <= MAX_REQUEST,
        ensures
            m.wf(),
            m@ == Map::<(u64, K), V>::empty(),
            m.spec_len() == 0,
            m.spec_capacity() == spec_capacity_for(capacity as int),
            m.spec_capacity() >= capacity,
            m.overflow_count() == 0,
    {
        Self::with_capacity_and_hasher(capacity, S::default())
    }
}

impl<K: Hash + Eq, V, S: BuildHasher> HashMap<K, V, S> {
    /// Inserts each pair of `items`, in order, for its key under the hash at
    /// the same place of `hashes`; a later pair for a key replaces an earlier
    /// value.
    pub fn extend_hashed(&mut self, hashes: &Vec<u64>, items: Vec<(K, V)>)
        requires
            old(self).wf(),
            key_eq_is_identity::<K>(),
            hashes@.len() == items@.len(),
            old(self).spec_len() + items@.len() < usize::MAX,
        ensures
            final(self).builder() == old(self).builder(),
            final(self).wf(),
            final(self)@ == after_inserts(old(self)@, hashes@, items@),
            final(self).spec_len() <= old(self).spec_len() + items@.len(),
            final(self).spec_capacity() >= old(self).spec_capacity(),
    {
        let ghost orig = items@;
        let n = items.len();
        let mut items = items;
        let mut rev: Vec<(K, V)> = Vec::new();
        while items.len() > 0
            invariant
                n == orig.len(),
                items@.len() + rev@.len() == n,
                items@ == orig.take(items@.len() as int),
                forall|j: int| 0 <= j < rev@.len() ==> #[trigger] rev@[j] == orig[n - 1 - j],
            decreases items@.len(),
        {
            match items.pop() {
                Some(x) => {
                    rev.push(x);
                    proof {
                        assert(items@ =~= orig.take(items@.len() as int));
                    }
                },
                None => {},
            }
        }
        let mut done: usize = 0;
        while rev.len() > 0
            invariant
                self.wf(),
                key_eq_is_identity::<K>(),
                n == orig.len(),
                hashes@.len() == n,
                done + rev@.len() == n,
                forall|j: int| 0 <= j < rev@.len() ==> #[trigger] rev@[j] == orig[n - 1 - j],
                self@ == after_inserts(old(self)@, hashes@, orig.take(done as int)),
                self.builder() == old(self).builder(),
                self.spec_len() <= old(self).spec_len() + done,
                self.spec_capacity() >= old(self).spec_capacity(),
                old(self).spec_len() + n < usize::MAX,
            decreases rev@.len(),
        {
            match rev.pop() {
                Some(x) => {
                    proof {
                        assert(x == orig[done as int]);
                        assert(orig.take(done + 1).drop_last() =~= orig.take(done as int));
                    }
                    let (k, v) = x;
                    self.insert_hashed(hashes[done], k, v);
                    done = done + 1;
                },
                None => {},
            }
        }
        proof {
            assert(orig.take(n as int) =~= orig);
        }
    }

    /// Inserts each pair of `items`, in order, for its key under the hash
    /// the builder gives it; a later pair for a key replaces an earlier
    /// value.
    pub fn extend(&mut self, items: Vec<(K, V)>)
        requires
            old(self).wf(),
            key_eq_is_identity::<K>(),
            old(self).spec_len() + items@.len() < usize::MAX,
        ensures
            final(self).builder() == old(self).builder(),
            final(self).wf(),
            exists|hs: Seq<u64>|
                #[trigger] seq_of_len(hs, items@.len()) && hashes_by(old(self).builder(), items@.map_values(|kv: (K, V)| kv.0), hs)
                    && final(self)@ == after_inserts(old(self)@, hs, items@),
            final(self).spec_len() <= old(self).spec_len() + items@.len(),
            final(self).spec_capacity() >= old(self).spec_capacity(),
    {
        let mut hashes: Vec<u64> = Vec::new();
        let mut i: usize = 0;
        while i < items.len()
            invariant
                i <= items@.len(),
                hashes@.len() == i,
                forall|j: int| 0 <= j < i ==> #[trigger] hashes_to(self.builder(), items@[j].0, hashes@[j]),
            decreases items@.len() - i,
        {
            hashes.push(hash_one(&self.hash_builder, &items[i].0));
            i = i + 1;
        }
        proof {
            assert(seq_of_len(hashes@, items@.len()));
            assert(hashes_by(old(self).builder(), items@.map_values(|kv: (K, V)| kv.0), hashes@));
        }
        self.extend_hashed(&hashes, items);
    }
}

impl<K: Hash + Eq, V, S: BuildHasher + Default> HashMap<K, V, S> {
    /// Builds a map from `items`, inserting each pair in order for its key
    /// under the hash the builder gives it.
    pub fn from_iter(items: Vec<(K, V)>) -> (m: Self)
        requires
            key_eq_is_identity::<K>(),
            items@.len() < usize::MAX,
        ensures
            m.wf(),
            exists|hs: Seq<u64>|
                #[trigger] seq_of_len(hs, items@.len()) && hashes_by(m.builder(), items@.map_values(|kv: (K, V)| kv.0), hs)
                    && m@ == after_inserts(
                    Map::<(u64, K), V>::empty(),
                    hs,
                    items@,
                ),
            m.spec_len() <= items@.len(),
    {
        let mut m = Self::new();
        m.extend(items);
        m
    }
}

impl<K: Hash + Eq, V, S: BuildHasher + Default> Default for HashMap<K, V, S> {
    fn default() -> (m: Self)
        ensures
            m.wf(),
            m@ == Map::<(u64, K), V>::empty(),
            m.spec_len() == 0,
    {
        Self::new()
    }
}

/// A view into a single entry of the map, which may be vacant or occupied.
///
/// This enum is constructed by [`HashMap::entry`].
pub enum Entry<'a, K, V> {
    /// A vacant entry.
    Vacant(VacantEntry<'a, K, V>),
    /// An occupied entry.
    Occupied(OccupiedEntry<'a, K, V>),
}

/// A view into a vacant entry of the map.
pub struct VacantEntry<'a, K, V> {
    pub(crate) entry: TableVacantEntry<'a, (K, V)>,
    pub(crate) key: K,
}

/// A view into an occupied entry of the map.
pub struct OccupiedEntry<'a, K, V> {
    pub(crate) entry: TableOccupiedEntry<'a, (K, V)>,
}

impl<'a, K, V> VacantEntry<'a, K, V> {
    /// The borrow of the map's table.
    pub closed spec fn table_ref(&self) -> &'a mut HashTable<(K, V)> {
        self.entry.table_ref()
    }

    /// The hash the key is stored under when a value is inserted.
    pub closed spec fn spec_hash(&self) -> u64 {
        self.entry.spec_hash()
    }

    /// The key a value inserted through the entry is stored for.
    pub closed spec fn spec_key(&self) -> K {
        self.key
    }

    /// The entry is a free place for its key under its hash.
    pub closed spec fn valid(&self) -> bool {
        &&& self.entry.valid()
        &&& unique_keys((*self.table_ref())@)
        &&& forall|w: V| (*self.table_ref())@.count((self.spec_hash(), (self.key, w))) == 0
    }

    /// Gets a reference to the key that would be used when inserting.
    pub fn key(&self) -> (r: &K)
        ensures
            *r == self.spec_key(),
    {
        &self.key
    }

    /// Takes ownership of the key.
    pub fn into_key(self) -> (r: K)
        ensures
            r == self.spec_key(),
    {
        self.key
    }

    /// Inserts the value for the entry's key and returns a mutable reference
    /// to it.
    pub fn insert(self, value: V) -> (r: &'a mut V)
        requires
            self.valid(),
        ensures
            *r == value,
            (*final(self.table_ref())).wf(),
            unique_keys((*final(self.table_ref()))@),
            map_of((*final(self.table_ref()))@) == map_of((*self.table_ref())@).insert(
                (self.spec_hash(), self.spec_key()),
                *final(r),
            ),
            (*final(self.table_ref()))@.len() == (*self.table_ref())@.len() + 1,
            (*final(self.table_ref())).spec_capacity() == (*self.table_ref()).spec_capacity(),
    {
        let ghost m0 = (*self.table_ref())@;
        let ghost h = self.spec_hash();
        let ghost k = self.key;
        proof {
            assert forall|w: V| #![trigger m0.insert((h, (k, w)))]
                unique_keys(m0.insert((h, (k, w)))) && map_of(m0.insert((h, (k, w)))) =~= map_of(m0).insert((h, k), w) by {
                lemma_map_of_insert(m0, h, k, w);
            }
        }
        let slot = self.entry.insert((self.key, value));
        &mut slot.1
    }
}

impl<'a, K, V> OccupiedEntry<'a, K, V> {
    /// The borrow of the map's table.
    pub closed spec fn table_ref(&self) -> &'a mut HashTable<(K, V)> {
        self.entry.table_ref()
    }

    /// The entry points at a stored pair of a map.
    pub closed spec fn valid(&self) -> bool {
        &&& self.entry.valid()
        &&& unique_keys((*self.table_ref())@)
    }

    /// The hash the entry's key is stored under.
    pub closed spec fn hash(&self) -> u64 {
        self.entry.entry().0
    }

    /// The entry's stored key.
    pub closed spec fn spec_key(&self) -> K {
        self.entry.entry().1.0
    }

    /// The entry's value.
    pub closed spec fn value(&self) -> V {
        self.entry.entry().1.1
    }

    /// Gets a reference to the key in the entry.
    pub fn key(&self) -> (r: &K)
        requires
            self.valid(),
        ensures
            *r == self.spec_key(),
    {
        &self.entry.get().0
    }

    /// Gets a reference to the value in the entry.
    pub fn get(&self) -> (r: &V)
        requires
            self.valid(),
        ensures
            *r == self.value(),
    {
        &self.entry.get().1
    }

    /// Gets a mutable reference to the value in the entry.
    pub fn get_mut(&mut self) -> (r: &mut V)
        requires
            old(self).valid(),
        ensures
            *r == old(self).value(),
            final(self).valid(),
            final(self).hash() == old(self).hash(),
            final(self).spec_key() == old(self).spec_key(),
            final(self).value() == *final(r),
            map_of((*final(self).table_ref())@) == map_of((*old(self).table_ref())@).insert(
                (old(self).hash(), old(self).spec_key()),
                *final(r),
            ),
            (*final(self).table_ref())@.len() == (*old(self).table_ref())@.len(),
            (*final(self).table_ref()).spec_capacity() == (*old(self).table_ref()).spec_capacity(),
    {
        let ghost m0 = (*self.table_ref())@;
        let ghost e = self.entry.entry();
        proof {
            self.entry.lemma_valid();
            assert forall|w: V| #![trigger m0.remove(e).insert((e.0, (e.1.0, w)))]
                unique_keys(m0.remove(e).insert((e.0, (e.1.0, w)))) && map_of(m0.remove(e).insert((e.0, (e.1.0, w))))
                    =~= map_of(m0).insert((e.0, e.1.0), w) by {
                lemma_map_of_replace(m0, e.0, e.1.0, e.1.1, w);
            }
        }
        let slot = self.entry.get_mut();
        &mut slot.1
    }

    /// Converts the entry into a mutable reference to the value.
    pub fn into_mut(self) -> (r: &'a mut V)
        requires
            self.valid(),
        ensures
            *r == self.value(),
            (*final(self.table_ref())).wf(),
            unique_keys((*final(self.table_ref()))@),
            map_of((*final(self.table_ref()))@) == map_of((*self.table_ref())@).insert(
                (self.hash(), self.spec_key()),
                *final(r),
            ),
            (*final(self.table_ref()))@.len() == (*self.table_ref())@.len(),
            (*final(self.table_ref())).spec_capacity() == (*self.table_ref()).spec_capacity(),
    {
        let ghost m0 = (*self.table_ref())@;
        let ghost e = self.entry.entry();
        proof {
            self.entry.lemma_valid();
            assert forall|w: V| #![trigger m0.remove(e).insert((e.0, (e.1.0, w)))]
                unique_keys(m0.remove(e).insert((e.0, (e.1.0, w)))) && map_of(m0.remove(e).insert((e.0, (e.1.0, w))))
                    =~= map_of(m0).insert((e.0, e.1.0), w) by {
                lemma_map_of_replace(m0, e.0, e.1.0, e.1.1, w);
            }
        }
        let slot = self.entry.into_mut();
        &mut slot.1
    }

    /// Replaces the value in the entry and returns the old value.
    pub fn insert(&mut self, value: V) -> (r: V)
        requires
            old(self).valid(),
        ensures
            r == old(self).value(),
            final(self).valid(),
            final(self).hash() == old(self).hash(),
            final(self).spec_key() == old(self).spec_key(),
            final(self).value() == value,
            map_of((*final(self).table_ref())@) == map_of((*old(self).table_ref())@).insert(
                (old(self).hash(), old(self).spec_key()),
                value,
            ),
            (*final(self).table_ref())@.len() == (*old(self).table_ref())@.len(),
    {
        let slot = self.get_mut();
        let mut old_value = value;
        core::mem::swap(slot, &mut old_value);
        old_value
    }

    /// Removes the entry from the map and returns the key and value.
    pub fn remove_entry(self) -> (r: (K, V))
        requires
            self.valid(),
        ensures
            r == (self.spec_key(), self.value()),
            (*final(self.table_ref())).wf(),
            unique_keys((*final(self.table_ref()))@),
            map_of((*final(self.table_ref()))@) == map_of((*self.table_ref())@).remove((self.hash(), self.spec_key())),
            (*final(self.table_ref()))@.len() == (*self.table_ref())@.len() - 1,
            (*final(self.table_ref())).spec_capacity() == (*self.table_ref()).spec_capacity(),
    {
        let ghost m0 = (*self.table_ref())@;
        let ghost e = self.entry.entry();
        proof {
            self.entry.lemma_valid();
            lemma_map_of_remove(m0, e.0, e.1.0, e.1.1);
        }
        self.entry.remove()
    }

    /// Removes the entry from the map and returns the value.
    pub fn remove(self) -> (r: V)
        requires
            self.valid(),
        ensures
            r == self.value(),
            (*final(self.table_ref())).wf(),
            unique_keys((*final(self.table_ref()))@),
            map_of((*final(self.table_ref()))@) == map_of((*self.table_ref())@).remove((self.hash(), self.spec_key())),
            (*final(self.table_ref()))@.len() == (*self.table_ref())@.len() - 1,
            (*final(self.table_ref())).spec_capacity() == (*self.table_ref()).spec_capacity(),
    {
        self.remove_entry().1
    }
}

impl<'a, K, V> Entry<'a, K, V> {
    /// The entry is valid.
    pub open spec fn valid(&self) -> bool {
        match self {
            Entry::Vacant(v) => v.valid(),
            Entry::Occupied(o) => o.valid(),
        }
    }

    /// The hash the entry's key is (or would be) stored under.
    pub open spec fn spec_hash(&self) -> u64 {
        match self {
            Entry::Vacant(v) => v.spec_hash(),
            Entry::Occupied(o) => o.hash(),
        }
    }

    /// The entry's key.
    pub open spec fn spec_key(&self) -> K {
        match self {
            Entry::Vacant(v) => v.spec_key(),
            Entry::Occupied(o) => o.spec_key(),
        }
    }

    /// The map the entry's table holds now.
    pub open spec fn spec_map(&self) -> Map<(u64, K), V> {
        match self {
            Entry::Vacant(v) => map_of((*v.table_ref())@),
            Entry::Occupied(o) => map_of((*o.table_ref())@),
        }
    }

    /// Inserts `default` if the entry is vacant, and returns a mutable
    /// reference to the value of the entry's key.
    pub fn or_insert(self, default: V) -> (r: &'a mut V)
        requires
            self.valid(),
        ensures
            match self {
                Entry::Occupied(o) => {
                    &&& *r == o.value()
                    &&& (*final(o.table_ref())).wf()
                    &&& unique_keys((*final(o.table_ref()))@)
                    &&& map_of((*final(o.table_ref()))@) == self.spec_map().insert((self.spec_hash(), self.spec_key()), *final(r))
                    &&& (*final(o.table_ref()))@.len() == (*o.table_ref())@.len()
                },
                Entry::Vacant(v) => {
                    &&& *r == default
                    &&& (*final(v.table_ref())).wf()
                    &&& unique_keys((*final(v.table_ref()))@)
                    &&& map_of((*final(v.table_ref()))@) == self.spec_map().insert((self.spec_hash(), self.spec_key()), *final(r))
                    &&& (*final(v.table_ref()))@.len() == (*v.table_ref())@.len() + 1
                },
            },
    {
        match self {
            Entry::Occupied(entry) => entry.into_mut(),
            Entry::Vacant(entry) => entry.insert(default),
        }
    }

    /// Inserts the value computed by `default` if the entry is vacant, and
    /// returns a mutable reference to the value of the entry's key.
    pub fn or_insert_with<F: FnOnce() -> V>(self, default: F) -> (r: &'a mut V)
        requires
            self.valid(),
            default.requires(()),
        ensures
            match self {
                Entry::Occupied(o) => {
                    &&& *r == o.value()
                    &&& (*final(o.table_ref())).wf()
                    &&& unique_keys((*final(o.table_ref()))@)
                    &&& map_of((*final(o.table_ref()))@) == self.spec_map().insert((self.spec_hash(), self.spec_key()), *final(r))
                    &&& (*final(o.table_ref()))@.len() == (*o.table_ref())@.len()
                },
                Entry::Vacant(v) => {
                    &&& default.ensures((), *r)
                    &&& (*final(v.table_ref())).wf()
                    &&& unique_keys((*final(v.table_ref()))@)
                    &&& map_of((*final(v.table_ref()))@) == self.spec_map().insert((self.spec_hash(), self.spec_key()), *final(r))
                    &&& (*final(v.table_ref()))@.len() == (*v.table_ref())@.len() + 1
                },
            },
    {
        match self {
            Entry::Occupied(entry) => entry.into_mut(),
            Entry::Vacant(entry) => entry.insert(default()),
        }
    }

    /// Inserts `V::default()` if the entry is vacant, and returns a mutable
    /// reference to the value of the entry's key.
    pub fn or_default(self) -> (r: &'a mut V) where V: Default
        requires
            self.valid(),
        ensures
            match self {
                Entry::Occupied(o) => {
                    &&& *r == o.value()
                    &&& (*final(o.table_ref())).wf()
                    &&& unique_keys((*final(o.table_ref()))@)
                    &&& map_of((*final(o.table_ref()))@) == self.spec_map().insert((self.spec_hash(), self.spec_key()), *final(r))
                    &&& (*final(o.table_ref()))@.len() == (*o.table_ref())@.len()
                },
                Entry::Vacant(v) => {
                    &&& call_ensures(V::default, (), *r)
                    &&& (*final(v.table_ref())).wf()
                    &&& unique_keys((*final(v.table_ref()))@)
                    &&& map_of((*final(v.table_ref()))@) == self.spec_map().insert((self.spec_hash(), self.spec_key()), *final(r))
                    &&& (*final(v.table_ref()))@.len() == (*v.table_ref())@.len() + 1
                },
            },
    {
        let default = || -> (d: V)
            ensures call_ensures(V::default, (), d),
        { V::default() };
        self.or_insert_with(default)
    }

    /// Applies `f` to the value of an occupied entry, then returns the entry.
    pub fn and_modify<F: FnOnce(&mut V)>(self, f: F) -> (r: Self)
        requires
            self.valid(),
            forall|v: &mut V| f.requires((v,)),
        ensures
            r.valid(),
            r.spec_hash() == self.spec_hash(),
            r.spec_key() == self.spec_key(),
            match self {
                Entry::Occupied(o) => match r {
                    Entry::Occupied(o2) => {
                        &&& exists|m: &mut V| *m == o.value() && *final(m) == o2.value() && #[trigger] f.ensures((m,), ())
                        &&& r.spec_map() == self.spec_map().insert((self.spec_hash(), self.spec_key()), o2.value())
                        &&& (*o2.table_ref())@.len() == (*o.table_ref())@.len()
                        &&& *final(o2.table_ref()) == *final(o.table_ref())
                    },
                    Entry::Vacant(_) => false,
                },
                Entry::Vacant(v) => r == self,
            },
    {
        match self {
            Entry::Occupied(entry) => {
                proof {
                    entry.entry.lemma_fields();
                }
                let OccupiedEntry { entry: TableOccupiedEntry { table, root_index, n_index, overflow_index } } = entry;
                let ghost m0 = (*table)@;
                let ghost e = table.entry_at(root_index, n_index, overflow_index);
                proof {
                    table.lemma_entry_at(root_index, n_index, overflow_index);
                    assert forall|w: V| #![trigger m0.remove(e).insert((e.0, (e.1.0, w)))]
                        unique_keys(m0.remove(e).insert((e.0, (e.1.0, w)))) && map_of(m0.remove(e).insert((e.0, (e.1.0, w))))
                            =~= map_of(m0).insert((e.0, e.1.0), w) by {
                        lemma_map_of_replace(m0, e.0, e.1.0, e.1.1, w);
                    }
                }
                let kv = table.entry_value_mut(root_index, n_index, overflow_index);
                f(&mut kv.1);
                let entry = TableOccupiedEntry { table, root_index, n_index, overflow_index };
                proof {
                    entry.lemma_fields();
                }
                Entry::Occupied(OccupiedEntry { entry })
            },
            Entry::Vacant(entry) => Entry::Vacant(entry),
        }
    }

    /// Returns a reference to the entry's key.
    pub fn key(&self) -> (r: &K)
        requires
            self.valid(),
        ensures
            *r == self.spec_key(),
    {
        match self {
            Entry::Occupied(entry) => entry.key(),
            Entry::Vacant(entry) => entry.key(),
        }
    }
}

impl<K: Hash + Eq, V, S: BuildHasher> HashMap<K, V, S> {
    /// Gets the entry of `key` stored under `hash`, for in-place
    /// manipulation.
    pub fn entry_hashed(&mut self, hash: u64, key: K) -> (r: Entry<'_, K, V>)
        requires
            old(self).wf(),
            old(self).spec_len() < usize::MAX,
            key_eq_is_identity::<K>(),
        ensures
            final(self).builder() == old(self).builder(),
            r.valid(),
            r.spec_hash() == hash,
            r.spec_key() == key,
            r.spec_map() == old(self)@,
            match r {
                Entry::Occupied(o) => {
                    &&& old(self)@.contains_key((hash, key))
                    &&& o.value() == old(self)@[(hash, key)]
                    &&& (*o.table_ref())@.len() == old(self).spec_len()
                    &&& final(self).backed_by(*final(o.table_ref()))
                },
                Entry::Vacant(v) => {
                    &&& !old(self)@.contains_key((hash, key))
                    &&& (*v.table_ref())@.len() == old(self).spec_len()
                    &&& final(self).backed_by(*final(v.table_ref()))
                },
            },
    {
        let ghost m0 = self.table@;
        let key_ref = &key;
        let eq = |kv: &(K, V)| -> (b: bool)
            requires key_eq_is_identity::<K>(),
            ensures b == (kv.0 == *key_ref),
        { key_matches(key_ref, kv) };
        match self.table.entry(hash, eq, |kv: &(K, V)| hash_one(&self.hash_builder, &kv.0)) {
            TableEntry::Occupied(entry) => {
                proof {
                    entry.lemma_valid();
                    lemma_map_of_lookup(m0, hash, key, entry.entry().1.1);
                }
                Entry::Occupied(OccupiedEntry { entry })
            },
            TableEntry::Vacant(entry) => {
                proof {
                    assert forall|w: V| m0.count((hash, (key, w))) == 0 by {
                        if m0.count((hash, (key, w))) > 0 {
                            assert(false);
                        }
                    }
                }
                Entry::Vacant(VacantEntry { entry, key })
            },
        }
    }

    /// Gets the entry of `key`, for in-place manipulation.
    pub fn entry(&mut self, key: K) -> (r: Entry<'_, K, V>)
        requires
            old(self).wf(),
            old(self).spec_len() < usize::MAX,
            key_eq_is_identity::<K>(),
        ensures
            final(self).builder() == old(self).builder(),
            r.valid(),
            hashes_to(old(self).builder(), key, r.spec_hash()),
            r.spec_key() == key,
            r.spec_map() == old(self)@,
            match r {
                Entry::Occupied(o) => {
                    &&& old(self)@.contains_key((r.spec_hash(), key))
                    &&& o.value() == old(self)@[(r.spec_hash(), key)]
                    &&& (*o.table_ref())@.len() == old(self).spec_len()
                    &&& final(self).backed_by(*final(o.table_ref()))
                },
                Entry::Vacant(v) => {
                    &&& !old(self)@.contains_key((r.spec_hash(), key))
                    &&& (*v.table_ref())@.len() == old(self).spec_len()
                    &&& final(self).backed_by(*final(v.table_ref()))
                },
            },
    {
        let hash = hash_one(&self.hash_builder, &key);
        self.entry_hashed(hash, key)
    }
}

impl<K, V, S> HashMap<K, V, S> {
    /// The pairs of the map in the order in which iteration yields them.
    pub closed spec fn pairs(&self) -> Seq<(K, V)> {
        self.table.values()
    }

    /// The pairs of the map in the order in which draining yields them.
    pub closed spec fn drain_pairs(&self) -> Seq<(K, V)> {
        self.table.drain_order()
    }

    /// Both orders list the map's entries, one pair per entry.
    pub proof fn lemma_pairs(&self)
        requires
            self.wf(),
        ensures
            self.pairs().len() == self.spec_len(),
            lists(self.pairs(), self@),
            self.drain_pairs().len() == self.spec_len(),
            lists(self.drain_pairs(), self@),
    {
        self.table.lemma_values_cover();
        self.table.lemma_values_members();
        lemma_lists(self.table@, self.table.values());
        lemma_lists(self.table@, self.table.drain_order());
    }

    /// Returns an iterator over the key-value pairs of the map.
    pub fn iter(&self) -> (r: Iter<'_, K, V>)
        requires
            self.wf(),
        ensures
            r.valid(),
            r.remaining() == self.pairs(),
            r.remaining().len() == self.spec_len(),
            lists(r.remaining(), self@),
    {
        proof {
            self.lemma_pairs();
        }
        Iter { inner: self.table.iter() }
    }

    /// Returns an iterator over the keys of the map.
    pub fn keys(&self) -> (r: Keys<'_, K, V>)
        requires
            self.wf(),
        ensures
            r.valid(),
            r.remaining() == self.pairs().map_values(|kv: (K, V)| kv.0),
            r.remaining().len() == self.spec_len(),
    {
        Keys { inner: self.iter() }
    }

    /// Returns an iterator over the values of the map.
    pub fn values(&self) -> (r: Values<'_, K, V>)
        requires
            self.wf(),
        ensures
            r.valid(),
            r.remaining() == self.pairs().map_values(|kv: (K, V)| kv.1),
            r.remaining().len() == self.spec_len(),
    {
        Values { inner: self.iter() }
    }

    /// Removes every pair from the map and returns an iterator that yields
    /// them. The map keeps its capacity.
    pub fn drain(&mut self) -> (r: Drain<'_, K, V>)
        requires
            old(self).wf(),
        ensures
            final(self).wf(),
            final(self).builder() == old(self).builder(),
            final(self)@ == Map::<(u64, K), V>::empty(),
            final(self).spec_len() == 0,
            final(self).spec_capacity() == old(self).spec_capacity(),
            r.remaining() == old(self).drain_pairs(),
            r.remaining().len() == old(self).spec_len(),
            lists(r.remaining(), old(self)@),
    {
        proof {
            self.lemma_pairs();
        }
        let inner = self.table.drain();
        proof {
            lemma_map_of_empty::<K, V>();
        }
        Drain { inner }
    }

    /// Consumes the map and returns an iterator over its pairs, in the order
    /// that [`drain`](HashMap::drain) yields them.
    pub fn into_iter(self) -> (r: IntoIter<K, V>)
        requires
            self.wf(),
        ensures
            r.remaining() == self.drain_pairs(),
            r.remaining().len() == self.spec_len(),
            lists(r.remaining(), self@),
    {
        proof {
            self.lemma_pairs();
        }
        IntoIter { inner: self.table.into_iter() }
    }
}

/// An iterator over the key-value pairs of a `HashMap`.
pub struct Iter<'a, K, V> {
    inner: TableIter<'a, (K, V)>,
}

impl<'a, K, V> Iter<'a, K, V> {
    /// The iterator's position is within its map.
    pub closed spec fn valid(&self) -> bool {
        self.inner.valid()
    }

    /// The pairs still to be yielded, in order.
    pub closed spec fn remaining(&self) -> Seq<(K, V)> {
        self.inner.remaining()
    }

    /// Yields the next pair.
    pub fn next(&mut self) -> (r: Option<(&'a K, &'a V)>)
        requires
            old(self).valid(),
        ensures
            final(self).valid(),
            match r {
                Some(kv) => {
                    &&& old(self).remaining().len() > 0
                    &&& (*kv.0, *kv.1) == old(self).remaining()[0]
                    &&& final(self).remaining() == old(self).remaining().drop_first()
                },
                None => {
                    &&& old(self).remaining().len() == 0
                    &&& final(self).remaining() == old(self).remaining()
                },
            },
    {
        match self.inner.next() {
            Some(kv) => Some((&kv.0, &kv.1)),
            None => None,
        }
    }
}

impl<K, V, S> HashMap<K, V, S> {
    /// The places of the map's storage: its slots, then its overflow entries.
    pub closed spec fn entry_places(&self) -> Seq<Option<(u64, (K, V))>> {
        self.table.places()
    }

    /// The map is the map of the entries its places hold, and no two places
    /// share a hash and a key.
    pub proof fn lemma_entry_places(&self)
        requires
            self.wf(),
        ensures
            self@ == map_of(slots_ms(self.entry_places())),
            unique_keys(slots_ms(self.entry_places())),
    {
        self.table.lemma_places();
    }

    /// Returns an iterator over the pairs of the map that gives mutable
    /// access to the values. When the iterator's borrows end, the map's
    /// places hold what the borrows finally hold; as long as every place
    /// keeps its hash and key (which the iterator's `next` ensures of the
    /// places it walks), the map stays well formed, with the same keys and,
    /// for each key, the value of its place.
    pub fn iter_mut(&mut self) -> (r: IterMut<'_, K, V>)
        requires
            old(self).wf(),
        ensures
            r.remaining() == old(self).pairs(),
            r.remaining().len() == old(self).spec_len(),
            lists(r.remaining(), old(self)@),
            places_of(r.slot_part(), r.overflow_part()) == old(self).entry_places(),
            keeps_keys(r.slot_part(), r.overflow_part(), final(r.slots_ref())@, final(r.overflow_ref())@) ==> {
                &&& final(self).wf()
                &&& final(self).entry_places() == places_of(final(r.slots_ref())@, final(r.overflow_ref())@)
                &&& final(self)@ == map_of(slots_ms(final(self).entry_places()))
                &&& final(self).spec_len() == old(self).spec_len()
                &&& final(self).spec_capacity() == old(self).spec_capacity()
            },
    {
        proof {
            self.lemma_pairs();
            self.table.lemma_places();
            lemma_unique_places(self.table.places());
        }
        let ghost t0 = self.table;
        let (slots, overflow) = self.table.storage_mut();
        proof {
            let s0 = slots@;
            let o0 = overflow@;
            assert forall|s1: Seq<Option<(u64, (K, V))>>, o1: Seq<(u64, (K, V))>|
                #[trigger] keeps_keys(s0, o0, s1, o1) implies {
                &&& same_hashes(s0, s1)
                &&& o1.len() == o0.len()
                &&& unique_keys(slots_ms(places_of(s1, o1)))
                &&& slots_ms(places_of(s1, o1)).len() == slots_ms(places_of(s0, o0)).len()
            } by {
                let p = places_of(s0, o0);
                let q = places_of(s1, o1);
                assert forall|j: int| 0 <= j < s0.len() implies (#[trigger] s0[j] is Some <==> s1[j] is Some) && (
                s0[j] is Some ==> (s0[j]->0).0 == (s1[j]->0).0) by {
                    assert(p[j] == s0[j]);
                    assert(q[j] == s1[j]);
                    assert(p[j] is Some <==> q[j] is Some);
                    if p[j] is Some {
                        assert(place_key(p[j]) == place_key(q[j]));
                    }
                }
                lemma_same_keys_unique(p, q);
                lemma_places_unique(q);
                crate::slot_model::lemma_slots_ms_len_same(p, q);
            }
            assert forall|t: HashTable<(K, V)>| #[trigger] t.places() == t.places() implies t@ == slots_ms(
                t.places(),
            ) by {
                t.lemma_places();
            }
        }
        IterMut { slots, overflow }
    }

    /// Returns an iterator over mutable references to the values of the map,
    /// with the same account of the map afterwards as `iter_mut`.
    pub fn values_mut(&mut self) -> (r: ValuesMut<'_, K, V>)
        requires
            old(self).wf(),
        ensures
            r.remaining() == old(self).pairs().map_values(|kv: (K, V)| kv.1),
            r.remaining().len() == old(self).spec_len(),
            places_of(r.slot_part(), r.overflow_part()) == old(self).entry_places(),
            keeps_keys(r.slot_part(), r.overflow_part(), final(r.slots_ref())@, final(r.overflow_ref())@) ==> {
                &&& final(self).wf()
                &&& final(self).entry_places() == places_of(final(r.slots_ref())@, final(r.overflow_ref())@)
                &&& final(self)@ == map_of(slots_ms(final(self).entry_places()))
                &&& final(self).spec_len() == old(self).spec_len()
                &&& final(self).spec_capacity() == old(self).spec_capacity()
            },
    {
        ValuesMut { inner: self.iter_mut() }
    }
}

/// An iterator over the key-value pairs of a `HashMap` with mutable
/// references to the values.
pub struct IterMut<'a, K, V> {
    slots: &'a mut [Option<(u64, (K, V))>],
    overflow: &'a mut [(u64, (K, V))],
}

impl<'a, K, V> IterMut<'a, K, V> {
    /// The pairs still to be yielded, in order.
    pub closed spec fn remaining(&self) -> Seq<(K, V)> {
        slot_values(self.slots@).add(entry_values(self.overflow@))
    }

    /// The slots still to be walked.
    pub closed spec fn slot_part(&self) -> Seq<Option<(u64, (K, V))>> {
        self.slots@
    }

    /// The overflow entries still to be walked.
    pub closed spec fn overflow_part(&self) -> Seq<(u64, (K, V))> {
        self.overflow@
    }

    /// The borrow of the slots still to be walked: what it holds when it
    /// ends goes back to the map.
    pub closed spec fn slots_ref(&self) -> &'a mut [Option<(u64, (K, V))>] {
        self.slots
    }

    /// The borrow of the overflow entries still to be walked: what it holds
    /// when it ends goes back to the map.
    pub closed spec fn overflow_ref(&self) -> &'a mut [(u64, (K, V))] {
        self.overflow
    }

    /// Yields the next pair, with a mutable reference to its value. The
    /// place it comes from ends up holding its hash, its key and the value
    /// finally written through the reference; the empty slots walked past
    /// end up empty.
    #[verifier::rlimit(60)]
    pub fn next(&mut self) -> (r: Option<(&'a K, &'a mut V)>)
        ensures
            match r {
                Some(kv) => {
                    &&& old(self).remaining().len() > 0
                    &&& (*kv.0, *kv.1) == old(self).remaining()[0]
                    &&& final(self).remaining() == old(self).remaining().drop_first()
                    &&& ({
                        ||| exists|j: int|
                            {
                                &&& 0 <= j < old(self).slot_part().len()
                                &&& #[trigger] old(self).slot_part()[j] is Some
                                &&& forall|i: int| 0 <= i < j ==> old(self).slot_part()[i] is None
                                &&& (*kv.0, *kv.1) == (old(self).slot_part()[j]->0).1
                                &&& final(self).slot_part() == old(self).slot_part().subrange(
                                    j + 1,
                                    old(self).slot_part().len() as int,
                                )
                                &&& final(self).overflow_ref() == old(self).overflow_ref()
                                &&& final(old(self).slots_ref())@ == old(self).slot_part().subrange(0, j).push(
                                    Some(((old(self).slot_part()[j]->0).0, (*kv.0, *final(kv.1)))),
                                ).add(final(final(self).slots_ref())@)
                            }
                        ||| {
                            &&& forall|i: int| 0 <= i < old(self).slot_part().len() ==> old(self).slot_part()[i] is None
                            &&& final(old(self).slots_ref())@ == old(self).slot_part()
                            &&& final(self).slot_part().len() == 0
                            &&& old(self).overflow_part().len() > 0
                            &&& (*kv.0, *kv.1) == old(self).overflow_part()[0].1
                            &&& final(self).overflow_part() == old(self).overflow_part().drop_first()
                            &&& final(old(self).overflow_ref())@ == seq![
                                (old(self).overflow_part()[0].0, (*kv.0, *final(kv.1))),
                            ].add(final(final(self).overflow_ref())@)
                        }
                    })
                },
                None => {
                    &&& old(self).remaining().len() == 0
                    &&& forall|i: int| 0 <= i < old(self).slot_part().len() ==> old(self).slot_part()[i] is None
                    &&& old(self).overflow_part().len() == 0
                    &&& final(old(self).slots_ref())@ == old(self).slot_part()
                    &&& final(old(self).overflow_ref())@ == old(self).overflow_part()
                    &&& final(self).slot_part().len() == 0
                    &&& final(self).overflow_part().len() == 0
                },
            },
    {
        let ghost start = self.remaining();
        let ghost s0 = self.slots@;
        let ghost mut k: int = 0;
        while self.slots.len() > 0
            invariant
                0 <= k <= s0.len(),
                s0 == old(self).slot_part(),
                self.slots@ == s0.subrange(k, s0.len() as int),
                forall|i: int| 0 <= i < k ==> s0[i] is None,
                final(old(self).slots_ref())@ == s0.subrange(0, k).add(final(self.slots)@),
                self.overflow == old(self).overflow,
                self.remaining() == start,
                start == old(self).remaining(),
            decreases self.slots@.len(),
        {
            let mut slots: &'a mut [Option<(u64, (K, V))>] = &mut [];
            core::mem::swap(&mut slots, &mut self.slots);
            let ghost sv = slots@;
            proof {
                lemma_slot_values_front(sv);
            }
            let (head, tail) = slots.split_at_mut(1);
            self.slots = tail;
            proof {
                assert(self.slots@ =~= sv.drop_first());
            }
            let first = head.first_mut();
            match first {
                Some(Some(e)) => {
                    proof {
                        assert(sv[0] == Some(*e));
                        assert(self.remaining() =~= start.drop_first());
                        assert(s0[k] == sv[0]);
                        assert(s0.subrange(k + 1, s0.len() as int) =~= self.slots@);
                    }
                    let kv = &mut e.1;
                    return Some((&kv.0, &mut kv.1));
                },
                _ => {},
            }
            proof {
                assert(s0[k] == sv[0]);
                assert(s0.subrange(0, k + 1) =~= s0.subrange(0, k).push(sv[0]));
                k = k + 1;
                assert(self.slots@ =~= s0.subrange(k, s0.len() as int));
            }
        }
        proof {
            assert(slot_values(self.slots@) =~= Seq::<(K, V)>::empty());
            assert(k == s0.len());
            assert(s0.subrange(0, k) =~= s0);
        }
        let mut walked: &'a mut [Option<(u64, (K, V))>] = &mut [];
        core::mem::swap(&mut walked, &mut self.slots);
        if self.overflow.len() == 0 {
            let mut rest: &'a mut [(u64, (K, V))] = &mut [];
            core::mem::swap(&mut rest, &mut self.overflow);
            return None;
        }
        let mut overflow: &'a mut [(u64, (K, V))] = &mut [];
        core::mem::swap(&mut overflow, &mut self.overflow);
        let ghost ov = overflow@;
        let (head, tail) = overflow.split_at_mut(1);
        self.overflow = tail;
        proof {
            assert(self.overflow@ =~= ov.drop_first());
            assert(entry_values(ov).drop_first() =~= entry_values(self.overflow@));
        }
        match head.first_mut() {
            Some(e) => {
                let kv = &mut e.1;
                Some((&kv.0, &mut kv.1))
            },
            None => None,
        }
    }
}

/// An iterator over mutable references to the values of a `HashMap`.
pub struct ValuesMut<'a, K, V> {
    inner: IterMut<'a, K, V>,
}

impl<'a, K, V> ValuesMut<'a, K, V> {
    /// The values still to be yielded, in order.
    pub closed spec fn remaining(&self) -> Seq<V> {
        self.inner.remaining().map_values(|kv: (K, V)| kv.1)
    }

    /// The slots still to be walked.
    pub closed spec fn slot_part(&self) -> Seq<Option<(u64, (K, V))>> {
        self.inner.slot_part()
    }

    /// The overflow entries still to be walked.
    pub closed spec fn overflow_part(&self) -> Seq<(u64, (K, V))> {
        self.inner.overflow_part()
    }

    /// The borrow of the slots still to be walked: what it holds when it
    /// ends goes back to the map.
    pub closed spec fn slots_ref(&self) -> &'a mut [Option<(u64, (K, V))>] {
        self.inner.slots_ref()
    }

    /// The borrow of the overflow entries still to be walked: what it holds
    /// when it ends goes back to the map.
    pub closed spec fn overflow_ref(&self) -> &'a mut [(u64, (K, V))] {
        self.inner.overflow_ref()
    }

    /// Yields a mutable reference to the next value. The place it comes
    /// from ends up holding its hash, its key and the value finally written
    /// through the reference; the empty slots walked past end up empty.
    pub fn next(&mut self) -> (r: Option<&'a mut V>)
        ensures
            match r {
                Some(v) => {
                    &&& old(self).remaining().len() > 0
                    &&& *v == old(self).remaining()[0]
                    &&& final(self).remaining() == old(self).remaining().drop_first()
                    &&& ({
                        ||| exists|j: int|
                            {
                                &&& 0 <= j < old(self).slot_part().len()
                                &&& #[trigger] old(self).slot_part()[j] is Some
                                &&& forall|i: int| 0 <= i < j ==> old(self).slot_part()[i] is None
                                &&& *v == (old(self).slot_part()[j]->0).1.1
                                &&& final(self).slot_part() == old(self).slot_part().subrange(
                                    j + 1,
                                    old(self).slot_part().len() as int,
                                )
                                &&& final(self).overflow_ref() == old(self).overflow_ref()
                                &&& final(old(self).slots_ref())@ == old(self).slot_part().subrange(0, j).push(
                                    Some(
                                        (
                                            (old(self).slot_part()[j]->0).0,
                                            ((old(self).slot_part()[j]->0).1.0, *final(v)),
                                        ),
                                    ),
                                ).add(final(final(self).slots_ref())@)
                            }
                        ||| {
                            &&& forall|i: int| 0 <= i < old(self).slot_part().len() ==> old(self).slot_part()[i] is None
                            &&& final(old(self).slots_ref())@ == old(self).slot_part()
                            &&& final(self).slot_part().len() == 0
                            &&& old(self).overflow_part().len() > 0
                            &&& *v == old(self).overflow_part()[0].1.1
                            &&& final(self).overflow_part() == old(self).overflow_part().drop_first()
                            &&& final(old(self).overflow_ref())@ == seq![
                                (old(self).overflow_part()[0].0, (old(self).overflow_part()[0].1.0, *final(v))),
                            ].add(final(final(self).overflow_ref())@)
                        }
                    })
                },
                None => {
                    &&& old(self).remaining().len() == 0
                    &&& forall|i: int| 0 <= i < old(self).slot_part().len() ==> old(self).slot_part()[i] is None
                    &&& old(self).overflow_part().len() == 0
                    &&& final(old(self).slots_ref())@ == old(self).slot_part()
                    &&& final(old(self).overflow_ref())@ == old(self).overflow_part()
                    &&& final(self).slot_part().len() == 0
                    &&& final(self).overflow_part().len() == 0
                },
            },
    {
        let ghost before = self.inner.remaining();
        let r = self.inner.next();
        proof {
            if r is Some {
                assert(before.drop_first().map_values(|kv: (K, V)| kv.1) =~= before.map_values(
                    |kv: (K, V)| kv.1,
                ).drop_first());
            }
        }
        match r {
            Some(kv) => Some(kv.1),
            None => None,
        }
    }
}

/// An iterator over the keys of a `HashMap`.
pub struct Keys<'a, K, V> {
    inner: Iter<'a, K, V>,
}

impl<'a, K, V> Keys<'a, K, V> {
    /// The iterator's position is within its map.
    pub closed spec fn valid(&self) -> bool {
        self.inner.valid()
    }

    /// The keys still to be yielded, in order.
    pub closed spec fn remaining(&self) -> Seq<K> {
        self.inner.remaining().map_values(|kv: (K, V)| kv.0)
    }

    /// Yields the next key.
    pub fn next(&mut self) -> (r: Option<&'a K>)
        requires
            old(self).valid(),
        ensures
            final(self).valid(),
            match r {
                Some(k) => {
                    &&& old(self).remaining().len() > 0
                    &&& *k == old(self).remaining()[0]
                    &&& final(self).remaining() == old(self).remaining().drop_first()
                },
                None => {
                    &&& old(self).remaining().len() == 0
                    &&& final(self).remaining() == old(self).remaining()
                },
            },
    {
        let ghost before = self.inner.remaining();
        let r = self.inner.next();
        proof {
            if r is Some {
                assert(before.drop_first().map_values(|kv: (K, V)| kv.0) =~= before.map_values(
                    |kv: (K, V)| kv.0,
                ).drop_first());
            }
        }
        match r {
            Some(kv) => Some(kv.0),
            None => None,
        }
    }
}

/// An iterator over the values of a `HashMap`.
pub struct Values<'a, K, V> {
    inner: Iter<'a, K, V>,
}

impl<'a, K, V> Values<'a, K, V> {
    /// The iterator's position is within its map.
    pub closed spec fn valid(&self) -> bool {
        self.inner.valid()
    }

    /// The values still to be yielded, in order.
    pub closed spec fn remaining(&self) -> Seq<V> {
        self.inner.remaining().map_values(|kv: (K, V)| kv.1)
    }

    /// Yields the next value.
    pub fn next(&mut self) -> (r: Option<&'a V>)
        requires
            old(self).valid(),
        ensures
            final(self).valid(),
            match r {
                Some(v) => {
                    &&& old(self).remaining().len() > 0
                    &&& *v == old(self).remaining()[0]
                    &&& final(self).remaining() == old(self).remaining().drop_first()
                },
                None => {
                    &&& old(self).remaining().len() == 0
                    &&& final(self).remaining() == old(self).remaining()
                },
            },
    {
        let ghost before = self.inner.remaining();
        let r = self.inner.next();
        proof {
            if r is Some {
                assert(before.drop_first().map_values(|kv: (K, V)| kv.1) =~= before.map_values(
                    |kv: (K, V)| kv.1,
                ).drop_first());
            }
        }
        match r {
            Some(kv) => Some(kv.1),
            None => None,
        }
    }
}

/// A draining iterator over the key-value pairs of a `HashMap`.
pub struct Drain<'a, K, V> {
    inner: TableDrain<'a, (K, V)>,
}

impl<'a, K, V> Drain<'a, K, V> {
    /// The pairs still to be yielded, in order.
    pub closed spec fn remaining(&self) -> Seq<(K, V)> {
        self.inner.remaining()
    }

    /// Yields the next drained pair.
    pub fn next(&mut self) -> (r: Option<(K, V)>)
        ensures
            match r {
                Some(kv) => {
                    &&& old(self).remaining().len() > 0
                    &&& kv == old(self).remaining()[0]
                    &&& final(self).remaining() == old(self).remaining().drop_first()
                },
                None => {
                    &&& old(self).remaining().len() == 0
                    &&& final(self).remaining() == old(self).remaining()
                },
            },
    {
        self.inner.next()
    }
}

/// A consuming iterator over the key-value pairs of a `HashMap`.
pub struct IntoIter<K, V> {
    inner: TableIntoIter<(K, V)>,
}

impl<K, V> IntoIter<K, V> {
    /// The pairs still to be yielded, in order.
    pub closed spec fn remaining(&self) -> Seq<(K, V)> {
        self.inner.remaining()
    }

    /// Yields the next pair.
    pub fn next(&mut self) -> (r: Option<(K, V)>)
        ensures
            match r {
                Some(kv) => {
                    &&& old(self).remaining().len() > 0
                    &&& kv == old(self).remaining()[0]
                    &&& final(self).remaining() == old(self).remaining().drop_first()
                },
                None => {
                    &&& old(self).remaining().len() == 0
                    &&& final(self).remaining() == old(self).remaining()
                },
            },
    {
        self.inner.next()
    }
}

impl<K, V, S> HashMap<K, V, S> {
    /// The length of a map is the number of its keys: one entry per stored
    /// pair.
    pub proof fn lemma_len_is_size(&self)
        requires
            self.wf(),
        ensures
            self@.dom().finite(),
            self@.len() == self.spec_len(),
    {
        lemma_map_of_len(self.table@);
    }
}

/// Every key of `m` is stored under the hash that `f` gives it.
pub open spec fn keys_hashed_by<K, V>(m: Map<(u64, K), V>, f: spec_fn(K) -> u64) -> bool {
    forall|q: (u64, K)| #[trigger] m.contains_key(q) ==> q.0 == f(q.1)
}

/// Where every key is stored under the hash that `f` gives it: a key looked
/// up under that hash is found exactly when iteration yields it, with the
/// value iteration yields for it, and iteration yields no key twice.
pub proof fn lemma_lookup_exact<K, V, S>(m: HashMap<K, V, S>, f: spec_fn(K) -> u64)
    requires
        m.wf(),
        keys_hashed_by(m@, f),
    ensures
        forall|k: K|
            #[trigger] m@.contains_key((f(k), k)) <==> exists|i: int| 0 <= i < m.pairs().len() && m.pairs()[i].0 == k,
        forall|i: int|
            0 <= i < m.pairs().len() ==> m@.contains_key((f(m.pairs()[i].0), m.pairs()[i].0)) && m@[(
                f(m.pairs()[i].0),
                m.pairs()[i].0,
            )] == #[trigger] m.pairs()[i].1,
        forall|i: int, j: int| 0 <= i < j < m.pairs().len() ==> #[trigger] m.pairs()[i].0 != #[trigger] m.pairs()[j].0,
{
    m.lemma_pairs();
    let s = m.pairs();
    assert forall|i: int| 0 <= i < s.len() implies m@.contains_key((f(s[i].0), s[i].0)) && m@[(f(s[i].0), s[i].0)]
        == #[trigger] s[i].1 by {
        assert(listed(m@, s[i]));
        let h = choose|h: u64| m@.contains_key((h, s[i].0)) && m@[(h, s[i].0)] == s[i].1;
        assert(m@.contains_key((h, s[i].0)));
    }
    assert forall|k: K| #[trigger] m@.contains_key((f(k), k)) <==> exists|i: int|
        0 <= i < s.len() && s[i].0 == k by {
        if m@.contains_key((f(k), k)) {
            assert(s.contains((k, m@[(f(k), k)])));
        }
        if exists|i: int| 0 <= i < s.len() && s[i].0 == k {
            let i = choose|i: int| 0 <= i < s.len() && s[i].0 == k;
            assert(listed(m@, s[i]));
            let h = choose|h: u64| m@.contains_key((h, s[i].0)) && m@[(h, s[i].0)] == s[i].1;
            assert(m@.contains_key((h, s[i].0)));
        }
    }
    let t = m.table;
    t.lemma_values_are_entries();
    let e = t.entries_in_order();
    assert forall|i: int, j: int| 0 <= i < j < s.len() implies #[trigger] s[i].0 != #[trigger] s[j].0 by {
        if s[i].0 == s[j].0 {
            assert(s == entry_values(e));
            assert(s[i] == e[i].1 && s[j] == e[j].1);
            lemma_seq_ms_update(e, i, e[i]);
            lemma_seq_ms_update(e, j, e[j]);
            lemma_map_of_lookup(t@, e[i].0, e[i].1.0, e[i].1.1);
            lemma_map_of_lookup(t@, e[j].0, e[j].1.0, e[j].1.1);
            assert(e[i].0 == f(s[i].0));
            assert(e[j].0 == f(s[j].0));
            assert(e[i] == e[j]);
            crate::slot_model::lemma_seq_ms_two(e, i, j);
        }
    }
}

/// Reading a key after writing it gives back the value written, and every
/// other key reads as before.
pub proof fn lemma_get_after_insert<K, V, S>(
    before: HashMap<K, V, S>,
    after: HashMap<K, V, S>,
    hash: u64,
    key: K,
    value: V,
)
    requires
        after@ == before@.insert((hash, key), value),
    ensures
        after.spec_get(hash, key) == Some(value),
        forall|h: u64, k: K| (h, k) != (hash, key) ==> #[trigger] after.spec_get(h, k) == before.spec_get(h, k),
{
}

/// Removing a key that an insertion added undoes the insertion: the same
/// pairs and the same length.
pub proof fn lemma_remove_undoes_insert<K, V, S>(
    m0: HashMap<K, V, S>,
    m1: HashMap<K, V, S>,
    m2: HashMap<K, V, S>,
    hash: u64,
    key: K,
    value: V,
)
    requires
        m0.wf(),
        m2.wf(),
        !m0@.contains_key((hash, key)),
        m1@ == m0@.insert((hash, key), value),
        m2@ == m1@.remove((hash, key)),
    ensures
        m2@ == m0@,
        m2.spec_len() == m0.spec_len(),
{
    assert(m2@ =~= m0@);
    m0.lemma_len_is_size();
    m2.lemma_len_is_size();
}

/// Inserting a key twice leaves one entry, holding the second value.
pub proof fn lemma_insert_twice<K, V, S>(
    m0: HashMap<K, V, S>,
    m1: HashMap<K, V, S>,
    m2: HashMap<K, V, S>,
    hash: u64,
    key: K,
    v1: V,
    v2: V,
)
    requires
        m1.wf(),
        m2.wf(),
        m1@ == m0@.insert((hash, key), v1),
        m2@ == m1@.insert((hash, key), v2),
    ensures
        m2@ == m0@.insert((hash, key), v2),
        m2.spec_len() == m1.spec_len(),
{
    assert(m2@ =~= m0@.insert((hash, key), v2));
    assert(m2@.dom() =~= m1@.dom());
    m1.lemma_len_is_size();
    m2.lemma_len_is_size();
}


/// A key looked up under the hash the map's builder gives it is found
/// exactly when the map holds it: where every key is stored under the hash
/// the builder gives it and the builder gives each key one hash.
pub proof fn lemma_lookup_by_builder<K: Hash, V, S: BuildHasher>(m: HashMap<K, V, S>, key: K, hash: u64)
    requires
        keys_stored_by(m@, m.builder()),
        hashes_consistently::<S, K>(m.builder()),
        hashes_to(m.builder(), key, hash),
    ensures
        m@.contains_key((hash, key)) == exists|h: u64| #[trigger] m@.contains_key((h, key)),
{
    if exists|h: u64| #[trigger] m@.contains_key((h, key)) {
        let h = choose|h: u64| #[trigger] m@.contains_key((h, key));
        assert(hashes_to(m.builder(), key, h));
    }
}

/// Taking entries out, or changing their values, keeps every key stored
/// under the hash the map's builder gives it: what `remove`, `retain` and
/// the like leave has keys that were there, with the same builder.
pub proof fn lemma_removal_keeps_keys_stored_by<K: Hash, V, S: BuildHasher>(m0: HashMap<K, V, S>, m1: HashMap<K, V, S>)
    requires
        keys_stored_by(m0@, m0.builder()),
        m1.builder() == m0.builder(),
        forall|q: (u64, K)| #[trigger] m1@.contains_key(q) ==> m0@.contains_key(q),
    ensures
        keys_stored_by(m1@, m1.builder()),
{
}

/// Inserting a pair keeps every key stored under the hash the map's
/// builder gives it.
pub proof fn lemma_insert_keeps_keys_stored_by<K: Hash, V, S: BuildHasher>(
    m0: HashMap<K, V, S>,
    m1: HashMap<K, V, S>,
    key: K,
    value: V,
)
    requires
        keys_stored_by(m0@, m0.builder()),
        m1.builder() == m0.builder(),
        exists|h: u64| #[trigger] hashes_to(m0.builder(), key, h) && m1@ == m0@.insert((h, key), value),
    ensures
        keys_stored_by(m1@, m1.builder()),
{
}

/// After `insert(key, value)`, `get_key_value(&key)` gives back the key and
/// the value: both hash the key with the same builder, which gives it one
/// hash. The conditions on `m1` and `r` are what `insert` and
/// `get_key_value` promise.
pub proof fn lemma_get_key_value_after_insert<K: Hash, V, S: BuildHasher>(
    m0: HashMap<K, V, S>,
    m1: HashMap<K, V, S>,
    key: K,
    value: V,
    r: Option<(&K, &V)>,
)
    requires
        hashes_consistently::<S, K>(m0.builder()),
        m1.builder() == m0.builder(),
        exists|h: u64| #[trigger] hashes_to(m0.builder(), key, h) && m1@ == m0@.insert((h, key), value),
        exists|h: u64|
            #![trigger m1.spec_get(h, key)]
            hashes_to(m1.builder(), key, h) && match r {
                Some(kv) => *kv.0 == key && m1.spec_get(h, key) == Some(*kv.1),
                None => m1.spec_get(h, key) is None,
            },
    ensures
        r matches Some(kv) && *kv.0 == key && *kv.1 == value,
{
    let h0 = choose|h: u64| #[trigger] hashes_to(m0.builder(), key, h) && m1@ == m0@.insert((h, key), value);
    let h1 = choose|h: u64|
        #![trigger m1.spec_get(h, key)]
        hashes_to(m1.builder(), key, h) && match r {
            Some(kv) => *kv.0 == key && m1.spec_get(h, key) == Some(*kv.1),
            None => m1.spec_get(h, key) is None,
        };
    assert(h0 == h1);
    assert(m1.spec_get(h1, key) == Some(value));
}

/// `get_key_value` finds a key exactly when `get` does, with the same
/// value: both look it up under the hash the map's builder gives it, which
/// is one hash.
pub proof fn lemma_get_key_value_agrees_with_get<K: Hash, V, S: BuildHasher>(
    m: HashMap<K, V, S>,
    key: K,
    r1: Option<&V>,
    r2: Option<(&K, &V)>,
)
    requires
        hashes_consistently::<S, K>(m.builder()),
        exists|h: u64|
            #![trigger m.spec_get(h, key)]
            hashes_to(m.builder(), key, h) && match r1 {
                Some(v) => m.spec_get(h, key) == Some(*v),
                None => m.spec_get(h, key) is None,
            },
        exists|h: u64|
            #![trigger m.spec_get(h, key)]
            hashes_to(m.builder(), key, h) && match r2 {
                Some(kv) => *kv.0 == key && m.spec_get(h, key) == Some(*kv.1),
                None => m.spec_get(h, key) is None,
            },
    ensures
        r1 is Some <==> r2 is Some,
        r2 matches Some(kv) ==> *kv.0 == key && r1 == Some(kv.1),
{
    let h1 = choose|h: u64|
        #![trigger m.spec_get(h, key)]
        hashes_to(m.builder(), key, h) && match r1 {
            Some(v) => m.spec_get(h, key) == Some(*v),
            None => m.spec_get(h, key) is None,
        };
    let h2 = choose|h: u64|
        #![trigger m.spec_get(h, key)]
        hashes_to(m.builder(), key, h) && match r2 {
            Some(kv) => *kv.0 == key && m.spec_get(h, key) == Some(*kv.1),
            None => m.spec_get(h, key) is None,
        };
    assert(h1 == h2);
}

/// After `insert(key, value)`, `remove(&key)` gives the value back and
/// leaves the map as it was, where the key was absent before: both hash the
/// key with the same builder, which gives it one hash. The conditions on
/// `m1`, `m2` and `r` are what `insert` and `remove` promise.
pub proof fn lemma_remove_after_insert<K: Hash, V, S: BuildHasher>(
    m0: HashMap<K, V, S>,
    m1: HashMap<K, V, S>,
    m2: HashMap<K, V, S>,
    key: K,
    value: V,
    r: Option<V>,
)
    requires
        hashes_consistently::<S, K>(m0.builder()),
        !exists|h: u64| #[trigger] m0@.contains_key((h, key)),
        m1.builder() == m0.builder(),
        exists|h: u64| #[trigger] hashes_to(m0.builder(), key, h) && m1@ == m0@.insert((h, key), value),
        exists|h: u64|
            #![trigger m1.spec_get(h, key)]
            {
                &&& hashes_to(m1.builder(), key, h)
                &&& r == m1.spec_get(h, key)
                &&& m2@ == m1@.remove((h, key))
            },
    ensures
        r == Some(value),
        m2@ == m0@,
{
    let h0 = choose|h: u64| #[trigger] hashes_to(m0.builder(), key, h) && m1@ == m0@.insert((h, key), value);
    let h1 = choose|h: u64|
        #![trigger m1.spec_get(h, key)]
        {
            &&& hashes_to(m1.builder(), key, h)
            &&& r == m1.spec_get(h, key)
            &&& m2@ == m1@.remove((h, key))
        };
    assert(h0 == h1);
    assert(!m0@.contains_key((h0, key)));
    assert(m2@ =~= m0@);
}

} // verus!
