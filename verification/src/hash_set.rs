//! A hash set built on the hopscotch [`HashTable`].
//!
//! `HashSet<T, S>` stores values hashed with the hasher builder `S`. The
//! table keeps each value with the hash it was given, so the set is viewed as
//! a set of (hash, value) pairs. The functions that take a hash
//! (`insert_hashed`, `contains_hashed`, ...) are exact for every hash; the
//! ones that hash the value themselves state what holds of the hash the
//! builder gives it (`hashes_to`), and the laws at the end say what follows
//! where the builder gives each value one hash.

use core::hash::BuildHasher;
use core::hash::Hash;
use vstd::prelude::*;
use vstd::multiset::Multiset;
use crate::hash_table::HashTable;
use crate::hash_table::Entry as TableEntry;
use crate::hash_table::Drain as TableDrain;
use crate::hash_table::IntoIter as TableIntoIter;
use crate::hash_table::Iter as TableIter;
use crate::hash_table::entry_values;
use crate::hashing::{hash_one, hashes_by, hashes_consistently, hashes_to};
use crate::slot_model::{
    dropped, kept, lemma_kept_at, lemma_kept_same, lemma_kept_split, lemma_seq_ms_len,
    lemma_seq_ms_member, lemma_slots_ms_has, lemma_slots_ms_member, slots_ms, lemma_seq_ms_update,
};
use crate::layout::{spec_capacity_for, spec_load, spec_slots_for, HOP_RANGE, LANES, MAX_REQUEST};
use crate::map_model::{
    found, lemma_lists_set, lemma_set_of_empty, lemma_set_of_insert, lemma_set_of_kept,
    lemma_set_of_len, lemma_set_of_remove, lists_set, set_of, unique_elems, seq_of_len,
};

verus! {

broadcast use vstd::multiset::group_multiset_axioms;

/// A hash set implemented with the hopscotch `HashTable` as storage.
#[derive(Clone)]
pub struct HashSet<T, S> {
    table: HashTable<T>,
    hash_builder: S,
}

/// Equality on `T` is identity, as `Eq` on an element type is meant to be.
pub open spec fn elem_eq_is_identity<T: PartialEq>() -> bool {
    vstd::laws_eq::obeys_concrete_eq::<T>()
}

/// The set `m` after adding, in order, each value of `items` under the hash
/// at the same place of `hashes`.
pub open spec fn after_inserts<T>(m: Set<(u64, T)>, hashes: Seq<u64>, items: Seq<T>) -> Set<(u64, T)>
    decreases items.len(),
{
    if items.len() == 0 {
        m
    } else {
        after_inserts(m, hashes, items.drop_last()).insert((hashes[items.len() - 1], items.last()))
    }
}

/// Every value of `m` is stored under the hash `hash_builder` gives it.
pub open spec fn stored_by<T: Hash, S: BuildHasher>(m: Set<(u64, T)>, hash_builder: S) -> bool {
    forall|q: (u64, T)| #[trigger] m.contains(q) ==> hashes_to(hash_builder, q.1, q.0)
}

impl<T, S> View for HashSet<T, S> {
    type V = Set<(u64, T)>;

    /// The values of the set, each with the hash it was stored under.
    open spec fn view(&self) -> Set<(u64, T)> {
        self.elements()
    }
}

impl<T, S> HashSet<T, S> {
    /// The hasher builder the set hashes its values with.
    pub closed spec fn builder(&self) -> S {
        self.hash_builder
    }

    /// The values of the set, each with the hash it was stored under.
    pub closed spec fn elements(&self) -> Set<(u64, T)> {
        set_of(self.table@)
    }

    /// The number of values.
    pub closed spec fn spec_len(&self) -> nat {
        self.table@.len()
    }

    /// The number of values the set holds before it grows.
    pub closed spec fn spec_capacity(&self) -> nat {
        self.table.spec_capacity()
    }

    /// The number of slots of the set's table.
    pub closed spec fn spec_slots(&self) -> int {
        self.table.spec_slots()
    }

    /// The number of values held in the table's overflow list.
    pub closed spec fn overflow_count(&self) -> nat {
        self.table.overflow_count()
    }

    /// The number of values `shrink_to_fit` sizes the table for: every
    /// one, those in the overflow list counted once more.
    pub open spec fn shrink_request(&self) -> int {
        (self.spec_len() + self.overflow_count()) as int
    }

    /// The table has as many root buckets as it can ever get.
    pub closed spec fn at_max_size(&self) -> bool {
        self.table.at_max_size()
    }

    /// Re-placing the values of the table's overflow list into a table of
    /// `slots` slots can meet one with no room: some well-formed table of
    /// that size, holding part of the table's entries, has no vacancy for
    /// the hash of one of them.
    pub closed spec fn rebuild_blocked(&self, slots: int) -> bool {
        self.table.rebuild_blocked(slots)
    }

    /// The capacity is the target load of the slots.
    pub proof fn lemma_capacity_is_load(&self)
        requires
            self.wf(),
        ensures
            self.spec_capacity() == spec_load(self.spec_slots()),
    {
        self.table.lemma_capacity_is_load();
    }

    /// The set is well formed: its table is, and no value is stored twice
    /// under one hash.
    pub closed spec fn wf(&self) -> bool {
        &&& self.table.wf()
        &&& unique_elems(self.table@)
    }
}

/// The element equality that the set hands to its table.
fn elem_matches<T: PartialEq>(value: &T, v: &T) -> (b: bool)
    requires
        elem_eq_is_identity::<T>(),
    ensures
        b == (*v == *value),
{
    proof {
        reveal(vstd::laws_eq::obeys_concrete_eq);
    }
    *v == *value
}

impl<T: Hash + Eq, S: BuildHasher> HashSet<T, S> {
    /// Creates an empty set with the given hasher builder.
    pub fn with_hasher(hash_builder: S) -> (s: Self)
        ensures
            s.wf(),
            s.builder() == hash_builder,
            s@ == Set::<(u64, T)>::empty(),
            s.spec_len() == 0,
            s.spec_capacity() == 0,
            s.overflow_count() == 0,
    {
        Self::with_capacity_and_hasher(0, hash_builder)
    }

    /// Creates an empty set with room for at least `capacity` values, using
    /// the given hasher builder.
    pub fn with_capacity_and_hasher(capacity: usize, hash_builder: S) -> (s: Self)
        requires
            capacity <= MAX_REQUEST,
        ensures
            s.wf(),
            s.builder() == hash_builder,
            s@ == Set::<(u64, T)>::empty(),
            s.spec_len() == 0,
            s.spec_capacity() == spec_capacity_for(capacity as int),
            s.spec_capacity() >= capacity,
            s.overflow_count() == 0,
    {
        let s = Self { table: HashTable::with_capacity(capacity), hash_builder };
        proof {
            lemma_set_of_empty::<T>();
        }
        s
    }

    /// Returns the number of values in the set.
    pub fn len(&self) -> (r: usize)
        requires
            self.wf(),
        ensures
            r == self.spec_len(),
    {
        self.table.len()
    }

    /// Returns `true` if the set holds no values.
    pub fn is_empty(&self) -> (r: bool)
        requires
            self.wf(),
        ensures
            r == (self.spec_len() == 0),
            r == (self@ == Set::<(u64, T)>::empty()),
    {
        let r = self.table.is_empty();
        proof {
            vstd::multiset::lemma_multiset_empty_len(self.table@);
            if r {
                lemma_set_of_empty::<T>();
            } else {
                let e = self.table@.choose();
                assert(self.table@.count(e) > 0);
                assert(self@.contains(e));
            }
        }
        r
    }

    /// Returns the number of values the set holds before it grows.
    pub fn capacity(&self) -> (r: usize)
        ensures
            r == self.spec_capacity(),
    {
        self.table.capacity()
    }

    /// Removes every value, keeping the allocated capacity.
    pub fn clear(&mut self)
        requires
            old(self).wf(),
        ensures
            final(self).wf(),
            final(self).builder() == old(self).builder(),
            final(self)@ == Set::<(u64, T)>::empty(),
            final(self).spec_len() == 0,
            final(self).spec_capacity() == old(self).spec_capacity(),
    {
        self.table.clear();
        proof {
            lemma_set_of_empty::<T>();
        }
    }

    /// Shrinks the capacity of the set as much as possible; an empty set
    /// gives up its allocation.
    pub fn shrink_to_fit(&mut self)
        requires
            old(self).wf(),
            2 * old(self).spec_len() <= MAX_REQUEST,
        ensures
            final(self).wf(),
            final(self).builder() == old(self).builder(),
            final(self)@ == old(self)@,
            final(self).spec_len() == old(self).spec_len(),
            old(self).spec_len() == 0 ==> final(self).spec_capacity() == 0 && final(self).spec_slots() == 0,
            old(self).spec_len() > 0 && spec_slots_for(old(self).shrink_request()) >= old(self).spec_slots()
                ==> *final(self) == *old(self),
            old(self).spec_len() > 0 && spec_slots_for(old(self).shrink_request()) < old(self).spec_slots() ==> {
                &&& final(self).spec_capacity() >= spec_capacity_for(old(self).shrink_request())
                &&& final(self).spec_capacity() >= final(self).spec_len()
            },
            old(self).spec_len() > 0 && spec_slots_for(old(self).shrink_request()) < old(self).spec_slots()
                && old(self).overflow_count() == 0 ==> {
                &&& final(self).spec_slots() == spec_slots_for(old(self).shrink_request())
                &&& final(self).spec_capacity() == spec_capacity_for(old(self).shrink_request())
                &&& final(self).spec_capacity() <= old(self).spec_capacity()
            },
            old(self).spec_len() > 0 && spec_slots_for(old(self).shrink_request()) < old(self).spec_slots() ==> {
                ||| final(self).spec_slots() == spec_slots_for(old(self).shrink_request())
                    && final(self).spec_capacity() == spec_capacity_for(old(self).shrink_request())
                    && final(self).spec_capacity() <= old(self).spec_capacity()
                ||| old(self).rebuild_blocked(spec_slots_for(old(self).shrink_request()))
            },
            old(self).spec_capacity() >= old(self).spec_len() ==> final(self).spec_capacity()
                >= final(self).spec_len(),
            old(self).spec_len() < HOP_RANGE * LANES ==> final(self).overflow_count() <= old(self).overflow_count(),
    {
        self.table.shrink_to_fit(|v: &T| hash_one(&self.hash_builder, v));
    }

    /// Reserves room for at least `additional` more values.
    pub fn reserve(&mut self, additional: usize)
        requires
            old(self).wf(),
            old(self).spec_len() + additional <= MAX_REQUEST,
        ensures
            final(self).wf(),
            final(self).builder() == old(self).builder(),
            final(self)@ == old(self)@,
            final(self).spec_len() == old(self).spec_len(),
            final(self).spec_capacity() >= old(self).spec_len() + additional,
            final(self).spec_capacity() >= old(self).spec_capacity(),
            old(self).spec_len() + additional <= old(self).spec_capacity() ==> *final(self) == *old(self),
            old(self).spec_len() + additional > old(self).spec_capacity() ==> final(self).spec_capacity()
                >= spec_capacity_for(old(self).spec_len() + additional),
            old(self).spec_len() + additional > old(self).spec_capacity() && old(self).overflow_count() == 0 ==> {
                &&& final(self).spec_capacity() == spec_capacity_for(old(self).spec_len() + additional)
                &&& final(self).spec_slots() == spec_slots_for(old(self).spec_len() + additional)
            },
            old(self).spec_len() + additional > old(self).spec_capacity() ==> {
                ||| final(self).spec_slots() == spec_slots_for(old(self).spec_len() + additional)
                    && final(self).spec_capacity() == spec_capacity_for(old(self).spec_len() + additional)
                ||| old(self).rebuild_blocked(spec_slots_for(old(self).spec_len() + additional))
            },
            old(self).spec_len() < HOP_RANGE * LANES ==> final(self).overflow_count() <= old(self).overflow_count(),
    {
        self.table.reserve(additional, |v: &T| hash_one(&self.hash_builder, v));
    }

    /// Adds `value` under `hash`. Returns `true` if it was not there yet; a
    /// value already there is left in place.
    pub fn insert_hashed(&mut self, hash: u64, value: T) -> (r: bool)
        requires
            old(self).wf(),
            old(self).spec_len() < usize::MAX,
            elem_eq_is_identity::<T>(),
        ensures
            final(self).wf(),
            final(self).builder() == old(self).builder(),
            r == !old(self)@.contains((hash, value)),
            final(self)@ == old(self)@.insert((hash, value)),
            final(self).spec_len() == old(self).spec_len() + (if r { 1int } else { 0int }),
            final(self).spec_capacity() >= old(self).spec_capacity(),
            old(self).spec_len() <= old(self).spec_capacity() ==> final(self).spec_len() <= final(self).spec_capacity()
                || final(self).at_max_size(),
            old(self).spec_len() < HOP_RANGE * LANES ==> final(self).overflow_count() <= old(self).overflow_count(),
    {
        let ghost m0 = self.table@;
        let value_ref = &value;
        let eq = |v: &T| -> (b: bool)
            requires elem_eq_is_identity::<T>(),
            ensures b == (*v == *value_ref),
        { elem_matches(value_ref, v) };
        match self.table.entry(hash, eq, |v: &T| hash_one(&self.hash_builder, v)) {
            TableEntry::Occupied(entry) => {
                proof {
                    entry.lemma_valid();
                    assert(set_of(m0).insert((hash, value)) =~= set_of(m0));
                    entry.lemma_dropped();
                }
                false
            },
            TableEntry::Vacant(entry) => {
                proof {
                    assert(m0.count((hash, value)) == 0);
                    lemma_set_of_insert(m0, (hash, value));
                }
                let _slot = entry.insert(value);
                true
            },
        }
    }

    /// Adds `value` to the set. Returns `true` if the set held no equal
    /// value under the hash the builder gives it.
    pub fn insert(&mut self, value: T) -> (r: bool)
        requires
            old(self).wf(),
            old(self).spec_len() < usize::MAX,
            elem_eq_is_identity::<T>(),
        ensures
            final(self).wf(),
            final(self).builder() == old(self).builder(),
            exists|h: u64|
                #![trigger old(self)@.contains((h, value))]
                {
                    &&& hashes_to(old(self).builder(), value, h)
                    &&& r == !old(self)@.contains((h, value))
                    &&& final(self)@ == old(self)@.insert((h, value))
                },
            final(self).spec_len() == old(self).spec_len() + (if r { 1int } else { 0int }),
            final(self).spec_capacity() >= old(self).spec_capacity(),
            old(self).spec_len() <= old(self).spec_capacity() ==> final(self).spec_len() <= final(self).spec_capacity()
                || final(self).at_max_size(),
            old(self).spec_len() < HOP_RANGE * LANES ==> final(self).overflow_count() <= old(self).overflow_count(),
    {
        let hash = hash_one(&self.hash_builder, &value);
        self.insert_hashed(hash, value)
    }

    /// A reference to the stored value equal to `value` under `hash`, if any.
    pub fn get_hashed(&self, hash: u64, value: &T) -> (r: Option<&T>)
        requires
            self.wf(),
            elem_eq_is_identity::<T>(),
        ensures
            match r {
                Some(v) => *v == *value && self@.contains((hash, *value)),
                None => !self@.contains((hash, *value)),
            },
    {
        let eq = |v: &T| -> (b: bool)
            requires elem_eq_is_identity::<T>(),
            ensures b == (*v == *value),
        { elem_matches(value, v) };
        self.table.find(hash, eq)
    }

    /// Returns a reference to the stored value equal to `value`, if any.
    pub fn get(&self, value: &T) -> (r: Option<&T>)
        requires
            self.wf(),
            elem_eq_is_identity::<T>(),
        ensures
            exists|h: u64|
                #![trigger self@.contains((h, *value))]
                hashes_to(self.builder(), *value, h) && match r {
                    Some(v) => *v == *value && self@.contains((h, *value)),
                    None => !self@.contains((h, *value)),
                },
    {
        let hash = hash_one(&self.hash_builder, value);
        self.get_hashed(hash, value)
    }

    /// Returns `true` if the set holds `value` under `hash`.
    pub fn contains_hashed(&self, hash: u64, value: &T) -> (r: bool)
        requires
            self.wf(),
            elem_eq_is_identity::<T>(),
        ensures
            r == self@.contains((hash, *value)),
    {
        self.get_hashed(hash, value).is_some()
    }

    /// Returns `true` if the set holds `value` under the hash the builder
    /// gives it.
    pub fn contains(&self, value: &T) -> (r: bool)
        requires
            self.wf(),
            elem_eq_is_identity::<T>(),
        ensures
            exists|h: u64|
                #![trigger self@.contains((h, *value))]
                hashes_to(self.builder(), *value, h) && r == self@.contains((h, *value)),
    {
        let hash = hash_one(&self.hash_builder, value);
        self.contains_hashed(hash, value)
    }

    /// Removes the value equal to `value` stored under `hash` and returns it.
    pub fn take_hashed(&mut self, hash: u64, value: &T) -> (r: Option<T>)
        requires
            old(self).wf(),
            elem_eq_is_identity::<T>(),
        ensures
            final(self).wf(),
            final(self).builder() == old(self).builder(),
            match r {
                Some(v) => v == *value && old(self)@.contains((hash, *value)),
                None => !old(self)@.contains((hash, *value)),
            },
            final(self)@ == old(self)@.remove((hash, *value)),
            final(self).spec_len() == old(self).spec_len() - (if r is Some { 1int } else { 0int }),
            final(self).spec_capacity() == old(self).spec_capacity(),
    {
        let ghost m0 = self.table@;
        let eq = |v: &T| -> (b: bool)
            requires elem_eq_is_identity::<T>(),
            ensures b == (*v == *value),
        { elem_matches(value, v) };
        let r = self.table.remove(hash, eq);
        proof {
            match &r {
                Some(v) => {
                    lemma_set_of_remove(m0, (hash, *v));
                },
                Option::None => {
                    assert(set_of(m0).remove((hash, *value)) =~= set_of(m0));
                },
            }
        }
        r
    }

    /// Removes the value equal to `value` and returns it, if the set held it
    /// under the hash the builder gives it.
    pub fn take(&mut self, value: &T) -> (r: Option<T>)
        requires
            old(self).wf(),
            elem_eq_is_identity::<T>(),
        ensures
            final(self).wf(),
            final(self).builder() == old(self).builder(),
            exists|h: u64|
                #![trigger old(self)@.contains((h, *value))]
                {
                    &&& hashes_to(old(self).builder(), *value, h)
                    &&& match r {
                        Some(v) => v == *value && old(self)@.contains((h, *value)),
                        None => !old(self)@.contains((h, *value)),
                    }
                    &&& final(self)@ == old(self)@.remove((h, *value))
                },
            final(self).spec_len() == old(self).spec_len() - (if r is Some { 1int } else { 0int }),
            final(self).spec_capacity() == old(self).spec_capacity(),
    {
        let hash = hash_one(&self.hash_builder, value);
        self.take_hashed(hash, value)
    }

    /// Removes `value` stored under `hash`. Returns `true` if it was there.
    pub fn remove_hashed(&mut self, hash: u64, value: &T) -> (r: bool)
        requires
            old(self).wf(),
            elem_eq_is_identity::<T>(),
        ensures
            final(self).wf(),
            final(self).builder() == old(self).builder(),
            r == old(self)@.contains((hash, *value)),
            final(self)@ == old(self)@.remove((hash, *value)),
            final(self).spec_len() == old(self).spec_len() - (if r { 1int } else { 0int }),
            final(self).spec_capacity() == old(self).spec_capacity(),
    {
        self.take_hashed(hash, value).is_some()
    }

    /// Removes `value` from the set. Returns `true` if the set held it under
    /// the hash the builder gives it.
    pub fn remove(&mut self, value: &T) -> (r: bool)
        requires
            old(self).wf(),
            elem_eq_is_identity::<T>(),
        ensures
            final(self).wf(),
            final(self).builder() == old(self).builder(),
            exists|h: u64|
                #![trigger old(self)@.contains((h, *value))]
                {
                    &&& hashes_to(old(self).builder(), *value, h)
                    &&& r == old(self)@.contains((h, *value))
                    &&& final(self)@ == old(self)@.remove((h, *value))
                },
            final(self).spec_len() == old(self).spec_len() - (if r { 1int } else { 0int }),
            final(self).spec_capacity() == old(self).spec_capacity(),
    {
        let hash = hash_one(&self.hash_builder, value);
        self.remove_hashed(hash, value)
    }

    /// Adds `value` under `hash`, replacing an equal value stored there, and
    /// returns the value it replaced.
    pub fn replace_hashed(&mut self, hash: u64, value: T) -> (r: Option<T>)
        requires
            old(self).wf(),
            old(self).spec_len() < usize::MAX,
            elem_eq_is_identity::<T>(),
        ensures
            final(self).wf(),
            final(self).builder() == old(self).builder(),
            match r {
                Some(v) => v == value && old(self)@.contains((hash, value)),
                None => !old(self)@.contains((hash, value)),
            },
            final(self)@ == old(self)@.insert((hash, value)),
            final(self).spec_len() == old(self).spec_len() + (if r is None { 1int } else { 0int }),
            final(self).spec_capacity() >= old(self).spec_capacity(),
    {
        let ghost m0 = self.table@;
        let value_ref = &value;
        let eq = |v: &T| -> (b: bool)
            requires elem_eq_is_identity::<T>(),
            ensures b == (*v == *value_ref),
        { elem_matches(value_ref, v) };
        match self.table.entry(hash, eq, |v: &T| hash_one(&self.hash_builder, v)) {
            TableEntry::Occupied(entry) => {
                proof {
                    entry.lemma_valid();
                    assert(set_of(m0).insert((hash, value)) =~= set_of(m0));
                    assert(m0.remove((hash, value)).insert((hash, value)) =~= m0);
                }
                let slot = entry.into_mut();
                let mut old_value = value;
                core::mem::swap(slot, &mut old_value);
                Some(old_value)
            },
            TableEntry::Vacant(entry) => {
                proof {
                    assert(m0.count((hash, value)) == 0);
                    lemma_set_of_insert(m0, (hash, value));
                }
                let _slot = entry.insert(value);
                None
            },
        }
    }

    /// Adds `value` to the set, replacing an equal value stored under the
    /// hash the builder gives it, and returns the value it replaced.
    pub fn replace(&mut self, value: T) -> (r: Option<T>)
        requires
            old(self).wf(),
            old(self).spec_len() < usize::MAX,
            elem_eq_is_identity::<T>(),
        ensures
            final(self).wf(),
            final(self).builder() == old(self).builder(),
            exists|h: u64|
                #![trigger old(self)@.contains((h, value))]
                {
                    &&& hashes_to(old(self).builder(), value, h)
                    &&& match r {
                        Some(v) => v == value && old(self)@.contains((h, value)),
                        None => !old(self)@.contains((h, value)),
                    }
                    &&& final(self)@ == old(self)@.insert((h, value))
                },
            final(self).spec_len() == old(self).spec_len() + (if r is None { 1int } else { 0int }),
            final(self).spec_capacity() >= old(self).spec_capacity(),
    {
        let hash = hash_one(&self.hash_builder, &value);
        self.replace_hashed(hash, value)
    }
}

impl<T: Hash + Eq, S: BuildHasher + Default> HashSet<T, S> {
    /// Creates an empty set with the default hasher builder.
    pub fn new() -> (s: Self)
        ensures
            s.wf(),
            s@ == Set::<(u64, T)>::empty(),
            s.spec_len() == 0,
    {
        Self::with_hasher(S::default())
    }

    /// Creates an empty set with room for at least `capacity` values, with
    /// the default hasher builder.
    pub fn with_capacity(capacity: usize) -> (s: Self)
        requires
            capacity <= MAX_REQUEST,
        ensures
            s.wf(),
            s@ == Set::<(u64, T)>::empty(),
            s.spec_len() == 0,
            s.spec_capacity() == spec_capacity_for(capacity as int),
            s.spec_capacity() >= capacity,
            s.overflow_count() == 0,
    {
        Self::with_capacity_and_hasher(capacity, S::default())
    }
}

impl<T: Hash + Eq, S: BuildHasher> HashSet<T, S> {
    /// Adds each value of `items`, in order, under the hash at the same place
    /// of `hashes`; a value already there is left in place.
    pub fn extend_hashed(&mut self, hashes: &Vec<u64>, items: Vec<T>)
        requires
            old(self).wf(),
            elem_eq_is_identity::<T>(),
            hashes@.len() == items@.len(),
            old(self).spec_len() + items@.len() < usize::MAX,
        ensures
            final(self).wf(),
            final(self).builder() == old(self).builder(),
            final(self)@ == after_inserts(old(self)@, hashes@, items@),
            final(self).spec_len() <= old(self).spec_len() + items@.len(),
            final(self).spec_capacity() >= old(self).spec_capacity(),
    {
        let ghost orig = items@;
        let n = items.len();
        let mut items = items;
        let mut rev: Vec<T> = Vec::new();
        while items.len() > 0
            invariant
                n == orig.len(),
                items@.len() + rev@.len() == n,
                items@ == orig.take(items@.len() as int),
                forall|j: int| 0 <= j < rev@.len() ==> #[trigger] rev@[j] == orig[n - 1 - j],
            decreases items@.len(),
        {
            match items.pop() {
                Some(x) => {
                    rev.push(x);
                    proof {
                        assert(items@ =~= orig.take(items@.len() as int));
                    }
                },
                None => {},
            }
        }
        let mut done: usize = 0;
        while rev.len() > 0
            invariant
                self.wf(),
                elem_eq_is_identity::<T>(),
                n == orig.len(),
                hashes@.len() == n,
                done + rev@.len() == n,
                forall|j: int| 0 <= j < rev@.len() ==> #[trigger] rev@[j] == orig[n - 1 - j],
                self@ == after_inserts(old(self)@, hashes@, orig.take(done as int)),
                self.builder() == old(self).builder(),
                self.spec_len() <= old(self).spec_len() + done,
                self.spec_capacity() >= old(self).spec_capacity(),
                old(self).spec_len() + n < usize::MAX,
            decreases rev@.len(),
        {
            match rev.pop() {
                Some(x) => {
                    proof {
                        assert(x == orig[done as int]);
                        assert(orig.take(done + 1).drop_last() =~= orig.take(done as int));
                    }
                    self.insert_hashed(hashes[done], x);
                    done = done + 1;
                },
                None => {},
            }
        }
        proof {
            assert(orig.take(n as int) =~= orig);
        }
    }

    /// Adds each value of `items`, in order, under the hash the builder
    /// gives it; a value already there is left in place.
    pub fn extend(&mut self, items: Vec<T>)
        requires
            old(self).wf(),
            elem_eq_is_identity::<T>(),
            old(self).spec_len() + items@.len() < usize::MAX,
        ensures
            final(self).wf(),
            final(self).builder() == old(self).builder(),
            exists|hs: Seq<u64>|
                #[trigger] seq_of_len(hs, items@.len()) && hashes_by(old(self).builder(), items@, hs) && final(self)@
                    == after_inserts(old(self)@, hs, items@),
            final(self).spec_len() <= old(self).spec_len() + items@.len(),
            final(self).spec_capacity() >= old(self).spec_capacity(),
    {
        let mut hashes: Vec<u64> = Vec::new();
        let mut i: usize = 0;
        while i < items.len()
            invariant
                i <= items@.len(),
                hashes@.len() == i,
                forall|j: int| 0 <= j < i ==> #[trigger] hashes_to(self.builder(), items@[j], hashes@[j]),
            decreases items@.len() - i,
        {
            hashes.push(hash_one(&self.hash_builder, &items[i]));
            i = i + 1;
        }
        proof {
            assert(seq_of_len(hashes@, items@.len()));
        }
        self.extend_hashed(&hashes, items);
    }
}

impl<T: Hash + Eq, S: BuildHasher + Default> HashSet<T, S> {
    /// Builds a set from `items`, adding each value in order under the hash
    /// the builder gives it.
    pub fn from_iter(items: Vec<T>) -> (s: Self)
        requires
            elem_eq_is_identity::<T>(),
            items@.len() < usize::MAX,
        ensures
            s.wf(),
            exists|hs: Seq<u64>|
                #[trigger] seq_of_len(hs, items@.len()) && hashes_by(s.builder(), items@, hs) && s@ == after_inserts(
                    Set::<(u64, T)>::empty(),
                    hs,
                    items@,
                ),
            s.spec_len() <= items@.len(),
    {
        let mut s = Self::new();
        s.extend(items);
        s
    }
}

impl<T: Hash + Eq, S: BuildHasher + Default> Default for HashSet<T, S> {
    fn default() -> (s: Self)
        ensures
            s.wf(),
            s@ == Set::<(u64, T)>::empty(),
            s.spec_len() == 0,
    {
        Self::new()
    }
}

/// Each value of `vals` is in `m` under the hash at the same place of
/// `hashes` exactly when `expected` is `true`.
pub open spec fn lookups_all<T>(vals: Seq<T>, hashes: Seq<u64>, m: Set<(u64, T)>, expected: bool) -> bool {
    forall|i: int| 0 <= i < vals.len() ==> m.contains((hashes[i], #[trigger] vals[i])) == expected
}

/// One step of a filtering iterator over `before`, whose values are looked
/// up in `m` under the hashes at the same places of `before_h`: `r` is the
/// first value that passes, every value ahead of it fails, and `after` and
/// `after_h` are what follows it; or no value passes and nothing is left. A
/// value passes when it is in `m` under its hash if `keep_found`, and when
/// it is not if not.
pub open spec fn filter_step<T>(
    before: Seq<T>,
    before_h: Seq<u64>,
    after: Seq<T>,
    after_h: Seq<u64>,
    r: Option<T>,
    m: Set<(u64, T)>,
    keep_found: bool,
) -> bool {
    match r {
        Some(v) => exists|k: int| {
            &&& 0 <= k < before.len()
            &&& #[trigger] before[k] == v
            &&& m.contains((before_h[k], v)) == keep_found
            &&& forall|j: int| 0 <= j < k ==> m.contains((before_h[j], #[trigger] before[j])) != keep_found
            &&& after == before.subrange(k + 1, before.len() as int)
            &&& after_h == before_h.subrange(k + 1, before_h.len() as int)
        },
        None => {
            &&& after.len() == 0
            &&& after_h.len() == 0
            &&& forall|j: int| 0 <= j < before.len() ==> m.contains((before_h[j], #[trigger] before[j])) != keep_found
        },
    }
}

impl<T, S> HashSet<T, S> {
    /// The values of the set in the order in which iteration yields them.
    pub closed spec fn items(&self) -> Seq<T> {
        self.table.values()
    }

    /// The values of the set in the order in which draining yields them.
    pub closed spec fn drain_items(&self) -> Seq<T> {
        self.table.drain_order()
    }

    /// Both orders list the set's values, one per value.
    pub proof fn lemma_items(&self)
        requires
            self.wf(),
        ensures
            self.items().len() == self.spec_len(),
            lists_set(self.items(), self@),
            self.drain_items().len() == self.spec_len(),
            lists_set(self.drain_items(), self@),
    {
        self.table.lemma_values_cover();
        self.table.lemma_values_members();
        lemma_lists_set(self.table@, self.table.values());
        lemma_lists_set(self.table@, self.table.drain_order());
    }

    /// Returns an iterator over the values of the set.
    pub fn iter(&self) -> (r: Iter<'_, T>)
        requires
            self.wf(),
        ensures
            r.valid(),
            r.remaining() == self.items(),
            r.remaining().len() == self.spec_len(),
            lists_set(r.remaining(), self@),
    {
        proof {
            self.lemma_items();
        }
        Iter { inner: self.table.iter() }
    }

    /// Removes every value from the set and returns an iterator that yields
    /// them. The set keeps its capacity.
    pub fn drain(&mut self) -> (r: Drain<'_, T>)
        requires
            old(self).wf(),
        ensures
            final(self).wf(),
            final(self).builder() == old(self).builder(),
            final(self)@ == Set::<(u64, T)>::empty(),
            final(self).spec_len() == 0,
            final(self).spec_capacity() == old(self).spec_capacity(),
            r.remaining() == old(self).drain_items(),
            r.remaining().len() == old(self).spec_len(),
            lists_set(r.remaining(), old(self)@),
    {
        proof {
            self.lemma_items();
        }
        let inner = self.table.drain();
        proof {
            lemma_set_of_empty::<T>();
        }
        Drain { inner }
    }

    /// Consumes the set and returns an iterator over its values, in the
    /// order that [`drain`](HashSet::drain) yields them.
    pub fn into_iter(self) -> (r: IntoIter<T>)
        requires
            self.wf(),
        ensures
            r.remaining() == self.drain_items(),
            r.remaining().len() == self.spec_len(),
            lists_set(r.remaining(), self@),
    {
        proof {
            self.lemma_items();
        }
        IntoIter { inner: self.table.into_iter() }
    }
}

impl<T: Hash + Eq, S: BuildHasher> HashSet<T, S> {
    /// The hashes this set's builder gives the values of `values`, in the
    /// order in which iteration yields them: the hashes under which this set
    /// looks those values up.
    fn lookup_hashes(&self, values: &HashSet<T, S>) -> (hs: Vec<u64>)
        requires
            values.wf(),
        ensures
            hs@.len() == values.items().len(),
            hashes_by(self.builder(), values.items(), hs@),
    {
        let mut it = values.iter();
        let ghost all = it.remaining();
        let mut hs: Vec<u64> = Vec::new();
        loop
            invariant_except_break
                it.valid(),
                hs@.len() <= all.len(),
                it.remaining() == all.subrange(hs@.len() as int, all.len() as int),
                forall|j: int| 0 <= j < hs@.len() ==> #[trigger] hashes_to(self.builder(), all[j], hs@[j]),
            ensures
                hs@.len() == all.len(),
                forall|j: int| 0 <= j < hs@.len() ==> #[trigger] hashes_to(self.builder(), all[j], hs@[j]),
            decreases all.len() - hs@.len(),
        {
            match it.next() {
                Some(v) => {
                    let h = hash_one(&self.hash_builder, v);
                    proof {
                        assert(*v == all[hs@.len() as int]);
                    }
                    hs.push(h);
                    proof {
                        assert(it.remaining() =~= all.subrange(hs@.len() as int, all.len() as int));
                    }
                },
                None => {
                    break;
                },
            }
        }
        hs
    }

    /// Looks each value of `self` up in `other` under the hash at the same
    /// place of `hashes`, until one lookup does not give `expected`; returns
    /// `true` if every one does.
    fn lookups_agree(&self, other: &HashSet<T, S>, hashes: &Vec<u64>, expected: bool) -> (r: bool)
        requires
            self.wf(),
            other.wf(),
            elem_eq_is_identity::<T>(),
            hashes@.len() == self.items().len(),
        ensures
            r == lookups_all(self.items(), hashes@, other@, expected),
    {
        let mut it = self.iter();
        let ghost all = it.remaining();
        let n = hashes.len();
        let mut k: usize = 0;
        loop
            invariant_except_break
                it.valid(),
                other.wf(),
                elem_eq_is_identity::<T>(),
                all == self.items(),
                hashes@.len() == all.len(),
                n == all.len(),
                k <= all.len(),
                it.remaining() == all.subrange(k as int, all.len() as int),
                forall|j: int| 0 <= j < k ==> other@.contains((hashes@[j], #[trigger] all[j])) == expected,
            ensures
                all == self.items(),
                hashes@.len() == all.len(),
                forall|j: int| 0 <= j < all.len() ==> other@.contains((hashes@[j], #[trigger] all[j])) == expected,
            decreases all.len() - k,
        {
            match it.next() {
                Some(v) => {
                    proof {
                        assert(all[k as int] == *v);
                    }
                    if other.contains_hashed(hashes[k], v) != expected {
                        return false;
                    }
                    k = k + 1;
                    proof {
                        assert(it.remaining() =~= all.subrange(k as int, all.len() as int));
                    }
                },
                None => {
                    break;
                },
            }
        }
        true
    }

    /// Returns `true` if no value of the smaller set is in the other one
    /// under the hash at the same place of `hashes`: the smaller set's
    /// values, in iteration order, with the hashes the other set's builder
    /// gives them.
    pub fn is_disjoint_hashed(&self, other: &HashSet<T, S>, hashes: &Vec<u64>) -> (r: bool)
        requires
            self.wf(),
            other.wf(),
            elem_eq_is_identity::<T>(),
            hashes@.len() == if self.spec_len() <= other.spec_len() {
                self.spec_len()
            } else {
                other.spec_len()
            },
        ensures
            self.spec_len() <= other.spec_len() ==> r == lookups_all(self.items(), hashes@, other@, false),
            self.spec_len() > other.spec_len() ==> r == lookups_all(other.items(), hashes@, self@, false),
    {
        proof {
            self.lemma_items();
            other.lemma_items();
        }
        if self.len() <= other.len() {
            self.lookups_agree(other, hashes, false)
        } else {
            other.lookups_agree(self, hashes, false)
        }
    }

    /// Returns `true` if no value of the smaller set is found in the other
    /// one. Each value is looked up under the hash the other set's builder
    /// gives it.
    pub fn is_disjoint(&self, other: &HashSet<T, S>) -> (r: bool)
        requires
            self.wf(),
            other.wf(),
            elem_eq_is_identity::<T>(),
        ensures
            self.spec_len() <= other.spec_len() ==> exists|hs: Seq<u64>|
                #[trigger] seq_of_len(hs, self.spec_len()) && r == lookups_all(self.items(), hs, other@, false),
            self.spec_len() > other.spec_len() ==> exists|hs: Seq<u64>|
                #[trigger] seq_of_len(hs, other.spec_len()) && r == lookups_all(other.items(), hs, self@, false),
            self.spec_len() <= other.spec_len() ==> exists|hs: Seq<u64>|
                #[trigger] hashes_by(other.builder(), self.items(), hs) && r == lookups_all(
                    self.items(),
                    hs,
                    other@,
                    false,
                ),
            self.spec_len() > other.spec_len() ==> exists|hs: Seq<u64>|
                #[trigger] hashes_by(self.builder(), other.items(), hs) && r == lookups_all(
                    other.items(),
                    hs,
                    self@,
                    false,
                ),
    {
        proof {
            self.lemma_items();
            other.lemma_items();
        }
        let hashes = if self.len() <= other.len() {
            other.lookup_hashes(self)
        } else {
            self.lookup_hashes(other)
        };
        proof {
            if self.spec_len() <= other.spec_len() {
                assert(seq_of_len(hashes@, self.spec_len()));
                assert(hashes_by(other.builder(), self.items(), hashes@));
            } else {
                assert(seq_of_len(hashes@, other.spec_len()));
                assert(hashes_by(self.builder(), other.items(), hashes@));
            }
        }
        self.is_disjoint_hashed(other, &hashes)
    }

    /// Returns `true` if `self` holds no more values than `other` and every
    /// value of `self` is in `other` under the hash at the same place of
    /// `hashes`: the values of `self`, in iteration order, with the hashes
    /// `other`'s builder gives them.
    pub fn is_subset_hashed(&self, other: &HashSet<T, S>, hashes: &Vec<u64>) -> (r: bool)
        requires
            self.wf(),
            other.wf(),
            elem_eq_is_identity::<T>(),
            hashes@.len() == self.spec_len(),
        ensures
            r == (self.spec_len() <= other.spec_len() && lookups_all(self.items(), hashes@, other@, true)),
    {
        proof {
            self.lemma_items();
        }
        if self.len() > other.len() {
            return false;
        }
        self.lookups_agree(other, hashes, true)
    }

    /// Returns `true` if every value of `self` is found in `other`: never
    /// when `self` holds more values. Each value is looked up under the hash
    /// `other`'s builder gives it.
    pub fn is_subset(&self, other: &HashSet<T, S>) -> (r: bool)
        requires
            self.wf(),
            other.wf(),
            elem_eq_is_identity::<T>(),
        ensures
            exists|hs: Seq<u64>|
                #[trigger] seq_of_len(hs, self.spec_len()) && r == (self.spec_len() <= other.spec_len() && lookups_all(
                    self.items(),
                    hs,
                    other@,
                    true,
                )),
            self.spec_len() <= other.spec_len() ==> exists|hs: Seq<u64>|
                #[trigger] hashes_by(other.builder(), self.items(), hs) && r == lookups_all(
                    self.items(),
                    hs,
                    other@,
                    true,
                ),
    {
        proof {
            self.lemma_items();
        }
        if self.len() > other.len() {
            proof {
                let hs = Seq::new(self.spec_len(), |i: int| 0u64);
                assert(seq_of_len(hs, self.spec_len()));
                assert(!(self.spec_len() <= other.spec_len() && lookups_all(self.items(), hs, other@, true)));
            }
            return false;
        }
        let hashes = other.lookup_hashes(self);
        proof {
            assert(seq_of_len(hashes@, self.spec_len()));
            assert(hashes_by(other.builder(), self.items(), hashes@));
        }
        self.is_subset_hashed(other, &hashes)
    }

    /// Returns `true` if `other` holds no more values than `self` and every
    /// value of `other` is in `self` under the hash at the same place of
    /// `hashes`: the values of `other`, in iteration order, with the hashes
    /// `self`'s builder gives them.
    pub fn is_superset_hashed(&self, other: &HashSet<T, S>, hashes: &Vec<u64>) -> (r: bool)
        requires
            self.wf(),
            other.wf(),
            elem_eq_is_identity::<T>(),
            hashes@.len() == other.spec_len(),
        ensures
            r == (other.spec_len() <= self.spec_len() && lookups_all(other.items(), hashes@, self@, true)),
    {
        other.is_subset_hashed(self, hashes)
    }

    /// Returns `true` if every value of `other` is found in `self`.
    pub fn is_superset(&self, other: &HashSet<T, S>) -> (r: bool)
        requires
            self.wf(),
            other.wf(),
            elem_eq_is_identity::<T>(),
        ensures
            exists|hs: Seq<u64>|
                #[trigger] seq_of_len(hs, other.spec_len()) && r == (other.spec_len() <= self.spec_len() && lookups_all(
                    other.items(),
                    hs,
                    self@,
                    true,
                )),
            other.spec_len() <= self.spec_len() ==> exists|hs: Seq<u64>|
                #[trigger] hashes_by(self.builder(), other.items(), hs) && r == lookups_all(
                    other.items(),
                    hs,
                    self@,
                    true,
                ),
    {
        other.is_subset(self)
    }
}

/// An iterator over the values of a `HashSet`.
pub struct Iter<'a, T> {
    inner: TableIter<'a, T>,
}

impl<'a, T> Iter<'a, T> {
    /// The iterator's position is within its set.
    pub closed spec fn valid(&self) -> bool {
        self.inner.valid()
    }

    /// The values still to be yielded, in order.
    pub closed spec fn remaining(&self) -> Seq<T> {
        self.inner.remaining()
    }

    /// Yields the next value.
    pub fn next(&mut self) -> (r: Option<&'a T>)
        requires
            old(self).valid(),
        ensures
            final(self).valid(),
            match r {
                Some(v) => {
                    &&& old(self).remaining().len() > 0
                    &&& *v == old(self).remaining()[0]
                    &&& final(self).remaining() == old(self).remaining().drop_first()
                },
                None => {
                    &&& old(self).remaining().len() == 0
                    &&& final(self).remaining() == old(self).remaining()
                },
            },
    {
        self.inner.next()
    }
}

/// A draining iterator over the values of a `HashSet`.
pub struct Drain<'a, T> {
    inner: TableDrain<'a, T>,
}

impl<'a, T> Drain<'a, T> {
    /// The values still to be yielded, in order.
    pub closed spec fn remaining(&self) -> Seq<T> {
        self.inner.remaining()
    }

    /// Yields the next drained value.
    pub fn next(&mut self) -> (r: Option<T>)
        ensures
            match r {
                Some(v) => {
                    &&& old(self).remaining().len() > 0
                    &&& v == old(self).remaining()[0]
                    &&& final(self).remaining() == old(self).remaining().drop_first()
                },
                None => {
                    &&& old(self).remaining().len() == 0
                    &&& final(self).remaining() == old(self).remaining()
                },
            },
    {
        self.inner.next()
    }
}

/// A consuming iterator over the values of a `HashSet`.
pub struct IntoIter<T> {
    inner: TableIntoIter<T>,
}

impl<T> IntoIter<T> {
    /// The values still to be yielded, in order.
    pub closed spec fn remaining(&self) -> Seq<T> {
        self.inner.remaining()
    }

    /// Yields the next value.
    pub fn next(&mut self) -> (r: Option<T>)
        ensures
            match r {
                Some(v) => {
                    &&& old(self).remaining().len() > 0
                    &&& v == old(self).remaining()[0]
                    &&& final(self).remaining() == old(self).remaining().drop_first()
                },
                None => {
                    &&& old(self).remaining().len() == 0
                    &&& final(self).remaining() == old(self).remaining()
                },
            },
    {
        self.inner.next()
    }
}

/// The value behind an optional reference.
pub open spec fn deref_opt<T>(r: Option<&T>) -> Option<T> {
    match r {
        Some(v) => Some(*v),
        None => None,
    }
}

impl<T: Hash + Eq, S: BuildHasher> HashSet<T, S> {
    /// Returns an iterator over the values of `self`, then those of `other`
    /// that are not in `self` under the hash at the same place of `hashes`:
    /// the values of `other`, in iteration order, with the hashes `self`'s
    /// builder gives them.
    pub fn union_hashed<'a>(&'a self, other: &'a HashSet<T, S>, hashes: Vec<u64>) -> (r: Union<'a, T, S>)
        requires
            self.wf(),
            other.wf(),
            hashes@.len() == other.spec_len(),
        ensures
            r.valid(),
            r.first_remaining() == self.items(),
            r.second_remaining() == other.items(),
            r.second_remaining_hashes() == hashes@,
            r.skip_set() == self@,
            lists_set(r.first_remaining(), self@),
            lists_set(r.second_remaining(), other@),
    {
        proof {
            self.lemma_items();
        }
        Union { iter: self.iter(), rest: other.difference_hashed(self, hashes) }
    }

    /// Returns an iterator over the values of `self`, then those of `other`
    /// that are missing from `self`, each looked up under the hash `self`'s
    /// builder gives it.
    pub fn union<'a>(&'a self, other: &'a HashSet<T, S>) -> (r: Union<'a, T, S>)
        requires
            self.wf(),
            other.wf(),
        ensures
            r.valid(),
            r.first_remaining() == self.items(),
            r.second_remaining() == other.items(),
            r.second_remaining_hashes().len() == other.spec_len(),
            hashes_by(self.builder(), r.second_remaining(), r.second_remaining_hashes()),
            r.skip_set() == self@,
            lists_set(r.first_remaining(), self@),
            lists_set(r.second_remaining(), other@),
    {
        proof {
            other.lemma_items();
        }
        let hashes = self.lookup_hashes(other);
        self.union_hashed(other, hashes)
    }

    /// Returns an iterator over the values of the smaller set that are in the
    /// other one under the hash at the same place of `hashes`: the smaller
    /// set's values, in iteration order, with the hashes the other set's
    /// builder gives them.
    pub fn intersection_hashed<'a>(&'a self, other: &'a HashSet<T, S>, hashes: Vec<u64>) -> (r: Intersection<'a, T, S>)
        requires
            self.wf(),
            other.wf(),
            hashes@.len() == if self.spec_len() <= other.spec_len() {
                self.spec_len()
            } else {
                other.spec_len()
            },
        ensures
            r.valid(),
            r.remaining_hashes() == hashes@,
            self.spec_len() <= other.spec_len() ==> r.remaining() == self.items() && r.other_set() == other@
                && lists_set(r.remaining(), self@),
            self.spec_len() > other.spec_len() ==> r.remaining() == other.items() && r.other_set() == self@
                && lists_set(r.remaining(), other@),
    {
        proof {
            self.lemma_items();
            other.lemma_items();
            assert(hashes@.subrange(0, hashes@.len() as int) =~= hashes@);
        }
        if self.len() <= other.len() {
            Intersection { iter: self.iter(), other, hashes, pos: 0 }
        } else {
            Intersection { iter: other.iter(), other: self, hashes, pos: 0 }
        }
    }

    /// Returns an iterator over the values of the smaller set that are found
    /// in the other one, each looked up under the hash the other set's
    /// builder gives it.
    pub fn intersection<'a>(&'a self, other: &'a HashSet<T, S>) -> (r: Intersection<'a, T, S>)
        requires
            self.wf(),
            other.wf(),
        ensures
            r.valid(),
            self.spec_len() <= other.spec_len() ==> r.remaining() == self.items() && r.other_set() == other@
                && lists_set(r.remaining(), self@),
            self.spec_len() > other.spec_len() ==> r.remaining() == other.items() && r.other_set() == self@
                && lists_set(r.remaining(), other@),
            r.remaining_hashes().len() == r.remaining().len(),
            self.spec_len() <= other.spec_len() ==> hashes_by(other.builder(), r.remaining(), r.remaining_hashes()),
            self.spec_len() > other.spec_len() ==> hashes_by(self.builder(), r.remaining(), r.remaining_hashes()),
    {
        proof {
            self.lemma_items();
            other.lemma_items();
        }
        let hashes = if self.len() <= other.len() {
            other.lookup_hashes(self)
        } else {
            self.lookup_hashes(other)
        };
        self.intersection_hashed(other, hashes)
    }

    /// Returns an iterator over the values of `self` that are not in `other`
    /// under the hash at the same place of `hashes`: the values of `self`,
    /// in iteration order, with the hashes `other`'s builder gives them.
    pub fn difference_hashed<'a>(&'a self, other: &'a HashSet<T, S>, hashes: Vec<u64>) -> (r: Difference<'a, T, S>)
        requires
            self.wf(),
            other.wf(),
            hashes@.len() == self.spec_len(),
        ensures
            r.valid(),
            r.remaining() == self.items(),
            r.remaining_hashes() == hashes@,
            r.other_set() == other@,
            lists_set(r.remaining(), self@),
    {
        proof {
            self.lemma_items();
            assert(hashes@.subrange(0, hashes@.len() as int) =~= hashes@);
        }
        Difference { iter: self.iter(), other, hashes, pos: 0 }
    }

    /// Returns an iterator over the values of `self` that are missing from
    /// `other`, each looked up under the hash `other`'s builder gives it.
    pub fn difference<'a>(&'a self, other: &'a HashSet<T, S>) -> (r: Difference<'a, T, S>)
        requires
            self.wf(),
            other.wf(),
        ensures
            r.valid(),
            r.remaining() == self.items(),
            r.remaining_hashes().len() == self.spec_len(),
            hashes_by(other.builder(), r.remaining(), r.remaining_hashes()),
            r.other_set() == other@,
            lists_set(r.remaining(), self@),
    {
        proof {
            self.lemma_items();
        }
        let hashes = other.lookup_hashes(self);
        self.difference_hashed(other, hashes)
    }

    /// Returns an iterator over the values of `self` not in `other` under
    /// the hash at the same place of `first_hashes`, then those of `other`
    /// not in `self` under the hash at the same place of `second_hashes`.
    /// Each list gives the values of one set, in iteration order, with the
    /// hashes the other set's builder gives them.
    pub fn symmetric_difference_hashed<'a>(
        &'a self,
        other: &'a HashSet<T, S>,
        first_hashes: Vec<u64>,
        second_hashes: Vec<u64>,
    ) -> (r: SymmetricDifference<'a, T, S>)
        requires
            self.wf(),
            other.wf(),
            first_hashes@.len() == self.spec_len(),
            second_hashes@.len() == other.spec_len(),
        ensures
            r.valid(),
            r.first_remaining() == self.items(),
            r.first_remaining_hashes() == first_hashes@,
            r.first_set() == other@,
            r.second_remaining() == other.items(),
            r.second_remaining_hashes() == second_hashes@,
            r.second_set() == self@,
            lists_set(r.first_remaining(), self@),
            lists_set(r.second_remaining(), other@),
    {
        SymmetricDifference {
            first: self.difference_hashed(other, first_hashes),
            second: other.difference_hashed(self, second_hashes),
        }
    }

    /// Returns an iterator over the values of `self` missing from `other`,
    /// then those of `other` missing from `self`, each looked up under the
    /// hash the other set's builder gives it.
    pub fn symmetric_difference<'a>(&'a self, other: &'a HashSet<T, S>) -> (r: SymmetricDifference<'a, T, S>)
        requires
            self.wf(),
            other.wf(),
        ensures
            r.valid(),
            r.first_remaining() == self.items(),
            r.first_remaining_hashes().len() == self.spec_len(),
            r.first_set() == other@,
            r.second_remaining() == other.items(),
            r.second_remaining_hashes().len() == other.spec_len(),
            r.second_set() == self@,
            hashes_by(other.builder(), r.first_remaining(), r.first_remaining_hashes()),
            hashes_by(self.builder(), r.second_remaining(), r.second_remaining_hashes()),
            lists_set(r.first_remaining(), self@),
            lists_set(r.second_remaining(), other@),
    {
        proof {
            self.lemma_items();
            other.lemma_items();
        }
        let first_hashes = other.lookup_hashes(self);
        let second_hashes = self.lookup_hashes(other);
        self.symmetric_difference_hashed(other, first_hashes, second_hashes)
    }
}

/// An iterator over the values of a set that are in another set.
pub struct Intersection<'a, T, S> {
    iter: Iter<'a, T>,
    other: &'a HashSet<T, S>,
    hashes: Vec<u64>,
    pos: usize,
}

impl<'a, T, S> Intersection<'a, T, S> {
    /// The iterator's position is within its set, a hash is left for each
    /// value still to be looked at, and the other set is well formed.
    pub closed spec fn valid(&self) -> bool {
        &&& self.iter.valid()
        &&& self.other.wf()
        &&& self.pos <= self.hashes@.len()
        &&& self.hashes@.len() - self.pos == self.iter.remaining().len()
    }

    /// The values still to be looked at, in order.
    pub closed spec fn remaining(&self) -> Seq<T> {
        self.iter.remaining()
    }

    /// The hashes under which the remaining values are looked up, in order.
    pub closed spec fn remaining_hashes(&self) -> Seq<u64> {
        self.hashes@.subrange(self.pos as int, self.hashes@.len() as int)
    }

    /// The set the values are looked up in.
    pub closed spec fn other_set(&self) -> Set<(u64, T)> {
        self.other@
    }
}

impl<'a, T: Hash + Eq, S: BuildHasher> Intersection<'a, T, S> {
    /// Yields the next value that is in the other set under its hash.
    pub fn next(&mut self) -> (r: Option<&'a T>)
        requires
            old(self).valid(),
            elem_eq_is_identity::<T>(),
        ensures
            final(self).valid(),
            final(self).other_set() == old(self).other_set(),
            filter_step(
                old(self).remaining(),
                old(self).remaining_hashes(),
                final(self).remaining(),
                final(self).remaining_hashes(),
                deref_opt(r),
                old(self).other_set(),
                true,
            ),
    {
        let ghost before = self.iter.remaining();
        let ghost before_h = self.remaining_hashes();
        let ghost p0 = self.pos as int;
        loop
            invariant_except_break
                self.valid(),
                self.other == old(self).other,
                self.hashes == old(self).hashes,
                elem_eq_is_identity::<T>(),
                before == old(self).iter.remaining(),
                before_h == old(self).remaining_hashes(),
                p0 == old(self).pos,
                p0 <= self.pos,
                before.len() == self.hashes@.len() - p0,
                self.iter.remaining() == before.subrange(self.pos - p0, before.len() as int),
                forall|j: int| 0 <= j < self.pos - p0 ==> self.other@.contains((before_h[j], #[trigger] before[j])) != true,
            ensures
                self.valid(),
                self.other == old(self).other,
                self.iter.remaining().len() == 0,
                self.remaining_hashes().len() == 0,
                forall|j: int| 0 <= j < before.len() ==> self.other@.contains((before_h[j], #[trigger] before[j])) != true,
            decreases self.iter.remaining().len(),
        {
            let ghost it0 = self.iter.remaining();
            match self.iter.next() {
                None => {
                    proof {
                        assert(self.pos - p0 == before.len());
                    }
                    break;
                },
                Some(v) => {
                    let ghost k = self.pos - p0;
                    proof {
                        assert(before[k] == *v);
                        assert(before_h[k] == self.hashes@[self.pos as int]);
                    }
                    let h = self.hashes[self.pos];
                    let len = self.hashes.len();
                    proof {
                        assert(self.pos < len);
                    }
                    self.pos = self.pos + 1;
                    proof {
                        assert(self.iter.remaining() =~= before.subrange(self.pos - p0, before.len() as int));
                    }
                    if self.other.contains_hashed(h, v) {
                        proof {
                            assert(self.remaining_hashes() =~= before_h.subrange(k + 1, before_h.len() as int));
                        }
                        return Some(v);
                    }
                },
            }
        }
        None
    }
}

/// An iterator over the values of a set that are not in another set.
pub struct Difference<'a, T, S> {
    iter: Iter<'a, T>,
    other: &'a HashSet<T, S>,
    hashes: Vec<u64>,
    pos: usize,
}

impl<'a, T, S> Difference<'a, T, S> {
    /// The iterator's position is within its set, a hash is left for each
    /// value still to be looked at, and the other set is well formed.
    pub closed spec fn valid(&self) -> bool {
        &&& self.iter.valid()
        &&& self.other.wf()
        &&& self.pos <= self.hashes@.len()
        &&& self.hashes@.len() - self.pos == self.iter.remaining().len()
    }

    /// The values still to be looked at, in order.
    pub closed spec fn remaining(&self) -> Seq<T> {
        self.iter.remaining()
    }

    /// The hashes under which the remaining values are looked up, in order.
    pub closed spec fn remaining_hashes(&self) -> Seq<u64> {
        self.hashes@.subrange(self.pos as int, self.hashes@.len() as int)
    }

    /// The set the values are looked up in.
    pub closed spec fn other_set(&self) -> Set<(u64, T)> {
        self.other@
    }
}

impl<'a, T: Hash + Eq, S: BuildHasher> Difference<'a, T, S> {
    /// Yields the next value that is not in the other set under its hash.
    pub fn next(&mut self) -> (r: Option<&'a T>)
        requires
            old(self).valid(),
            elem_eq_is_identity::<T>(),
        ensures
            final(self).valid(),
            final(self).other_set() == old(self).other_set(),
            filter_step(
                old(self).remaining(),
                old(self).remaining_hashes(),
                final(self).remaining(),
                final(self).remaining_hashes(),
                deref_opt(r),
                old(self).other_set(),
                false,
            ),
    {
        let ghost before = self.iter.remaining();
        let ghost before_h = self.remaining_hashes();
        let ghost p0 = self.pos as int;
        loop
            invariant_except_break
                self.valid(),
                self.other == old(self).other,
                self.hashes == old(self).hashes,
                elem_eq_is_identity::<T>(),
                before == old(self).iter.remaining(),
                before_h == old(self).remaining_hashes(),
                p0 == old(self).pos,
                p0 <= self.pos,
                before.len() == self.hashes@.len() - p0,
                self.iter.remaining() == before.subrange(self.pos - p0, before.len() as int),
                forall|j: int| 0 <= j < self.pos - p0 ==> self.other@.contains((before_h[j], #[trigger] before[j])) != false,
            ensures
                self.valid(),
                self.other == old(self).other,
                self.iter.remaining().len() == 0,
                self.remaining_hashes().len() == 0,
                forall|j: int| 0 <= j < before.len() ==> self.other@.contains((before_h[j], #[trigger] before[j])) != false,
            decreases self.iter.remaining().len(),
        {
            let ghost it0 = self.iter.remaining();
            match self.iter.next() {
                None => {
                    proof {
                        assert(self.pos - p0 == before.len());
                    }
                    break;
                },
                Some(v) => {
                    let ghost k = self.pos - p0;
                    proof {
                        assert(before[k] == *v);
                        assert(before_h[k] == self.hashes@[self.pos as int]);
                    }
                    let h = self.hashes[self.pos];
                    let len = self.hashes.len();
                    proof {
                        assert(self.pos < len);
                    }
                    self.pos = self.pos + 1;
                    proof {
                        assert(self.iter.remaining() =~= before.subrange(self.pos - p0, before.len() as int));
                    }
                    if !self.other.contains_hashed(h, v) {
                        proof {
                            assert(self.remaining_hashes() =~= before_h.subrange(k + 1, before_h.len() as int));
                        }
                        return Some(v);
                    }
                },
            }
        }
        None
    }
}

/// An iterator over the values of a set, then those of another set that are
/// missing from the first.
pub struct Union<'a, T, S> {
    iter: Iter<'a, T>,
    rest: Difference<'a, T, S>,
}

impl<'a, T, S> Union<'a, T, S> {
    /// Both parts of the iterator are valid.
    pub closed spec fn valid(&self) -> bool {
        self.iter.valid() && self.rest.valid()
    }

    /// The values of the first set still to be yielded, in order.
    pub closed spec fn first_remaining(&self) -> Seq<T> {
        self.iter.remaining()
    }

    /// The values of the second set still to be looked at, in order.
    pub closed spec fn second_remaining(&self) -> Seq<T> {
        self.rest.remaining()
    }

    /// The hashes under which those values are looked up, in order.
    pub closed spec fn second_remaining_hashes(&self) -> Seq<u64> {
        self.rest.remaining_hashes()
    }

    /// The set whose values the second part skips.
    pub closed spec fn skip_set(&self) -> Set<(u64, T)> {
        self.rest.other_set()
    }
}

impl<'a, T: Hash + Eq, S: BuildHasher> Union<'a, T, S> {
    /// Yields the next value of the first set, or once those are done, the
    /// next value of the second set that is missing from the first.
    pub fn next(&mut self) -> (r: Option<&'a T>)
        requires
            old(self).valid(),
            elem_eq_is_identity::<T>(),
        ensures
            final(self).valid(),
            final(self).skip_set() == old(self).skip_set(),
            ({
                ||| r is Some && old(self).first_remaining().len() > 0 && deref_opt(r) == Some(
                    old(self).first_remaining()[0],
                ) && final(self).first_remaining() == old(self).first_remaining().drop_first()
                    && final(self).second_remaining() == old(self).second_remaining()
                    && final(self).second_remaining_hashes() == old(self).second_remaining_hashes()
                ||| old(self).first_remaining().len() == 0 && final(self).first_remaining().len() == 0
                    && filter_step(
                    old(self).second_remaining(),
                    old(self).second_remaining_hashes(),
                    final(self).second_remaining(),
                    final(self).second_remaining_hashes(),
                    deref_opt(r),
                    old(self).skip_set(),
                    false,
                )
            }),
    {
        match self.iter.next() {
            Some(v) => Some(v),
            None => self.rest.next(),
        }
    }
}

/// An iterator over the values of a set missing from another set, then the
/// values of the other set missing from the first.
pub struct SymmetricDifference<'a, T, S> {
    first: Difference<'a, T, S>,
    second: Difference<'a, T, S>,
}

impl<'a, T, S> SymmetricDifference<'a, T, S> {
    /// Both parts of the iterator are valid.
    pub closed spec fn valid(&self) -> bool {
        self.first.valid() && self.second.valid()
    }

    /// The values of the first set still to be looked at, in order.
    pub closed spec fn first_remaining(&self) -> Seq<T> {
        self.first.remaining()
    }

    /// The hashes under which those values are looked up, in order.
    pub closed spec fn first_remaining_hashes(&self) -> Seq<u64> {
        self.first.remaining_hashes()
    }

    /// The set the first part looks its values up in.
    pub closed spec fn first_set(&self) -> Set<(u64, T)> {
        self.first.other_set()
    }

    /// The values of the second set still to be looked at, in order.
    pub closed spec fn second_remaining(&self) -> Seq<T> {
        self.second.remaining()
    }

    /// The hashes under which those values are looked up, in order.
    pub closed spec fn second_remaining_hashes(&self) -> Seq<u64> {
        self.second.remaining_hashes()
    }

    /// The set the second part looks its values up in.
    pub closed spec fn second_set(&self) -> Set<(u64, T)> {
        self.second.other_set()
    }
}

impl<'a, T: Hash + Eq, S: BuildHasher> SymmetricDifference<'a, T, S> {
    /// Yields the next value of the first set missing from the second, or
    /// once those are done, the next value of the second set missing from the
    /// first.
    pub fn next(&mut self) -> (r: Option<&'a T>)
        requires
            old(self).valid(),
            elem_eq_is_identity::<T>(),
        ensures
            final(self).valid(),
            final(self).first_set() == old(self).first_set(),
            final(self).second_set() == old(self).second_set(),
            ({
                ||| r is Some && filter_step(
                    old(self).first_remaining(),
                    old(self).first_remaining_hashes(),
                    final(self).first_remaining(),
                    final(self).first_remaining_hashes(),
                    deref_opt(r),
                    old(self).first_set(),
                    false,
                ) && final(self).second_remaining() == old(self).second_remaining()
                    && final(self).second_remaining_hashes() == old(self).second_remaining_hashes()
                ||| filter_step(
                    old(self).first_remaining(),
                    old(self).first_remaining_hashes(),
                    final(self).first_remaining(),
                    final(self).first_remaining_hashes(),
                    None,
                    old(self).first_set(),
                    false,
                ) && filter_step(
                    old(self).second_remaining(),
                    old(self).second_remaining_hashes(),
                    final(self).second_remaining(),
                    final(self).second_remaining_hashes(),
                    deref_opt(r),
                    old(self).second_set(),
                    false,
                )
            }),
    {
        match self.first.next() {
            Some(v) => Some(v),
            None => self.second.next(),
        }
    }
}

impl<T, S> HashSet<T, S> {
    /// Keeps only the values for which `f` returns `true`; `f` is called
    /// once on each value.
    pub fn retain<F: FnMut(&T) -> bool>(&mut self, mut f: F)
        requires
            old(self).wf(),
            forall|v: &T| f.requires((v,)),
        ensures
            final(self).wf(),
            final(self).builder() == old(self).builder(),
            final(self).spec_capacity() == old(self).spec_capacity(),
            forall|e: (u64, T)| #[trigger] final(self)@.contains(e) ==> old(self)@.contains(e),
            forall|e: (u64, T)| #[trigger] old(self)@.contains(e) ==> f.ensures((&e.1,), final(self)@.contains(e)),
    {
        let ghost p0 = self.table.places();
        let ghost t0 = self.table;
        let ghost f0 = f;
        proof {
            self.table.lemma_places();
        }
        let n = self.table.slot_count();
        let mut keep_slots: Vec<bool> = Vec::new();
        let mut i: usize = 0;
        while i < n
            invariant
                f == f0,
                self.table == t0,
                p0 == t0.places(),
                n == t0.num_slots(),
                n <= p0.len(),
                i <= n,
                keep_slots@.len() == i,
                forall|v: &T| f.requires((v,)),
                forall|j: int| 0 <= j < i && p0[j] is Some ==> f.ensures((&(p0[j]->0).1,), #[trigger] keep_slots@[j]),
            decreases n - i,
        {
            let b = match self.table.slot_ref(i) {
                Some(v) => f(v),
                None => true,
            };
            keep_slots.push(b);
            i = i + 1;
        }
        let m = self.table.overflow_len();
        proof {
            assert forall|t: int| 0 <= t < m implies (#[trigger] p0[n + t]) is Some by {
                assert(t0.places()[n + t] is Some);
            }
        }
        let mut keep_overflow: Vec<bool> = Vec::new();
        let mut j: usize = 0;
        while j < m
            invariant
                f == f0,
                self.table == t0,
                p0 == t0.places(),
                n == t0.num_slots(),
                m == p0.len() - n,
                j <= m,
                keep_slots@.len() == n,
                keep_overflow@.len() == j,
                forall|v: &T| f.requires((v,)),
                forall|t: int| 0 <= t < m ==> (#[trigger] p0[n + t]) is Some,
                forall|i: int| 0 <= i < n && p0[i] is Some ==> f.ensures((&(p0[i]->0).1,), #[trigger] keep_slots@[i]),
                forall|t: int| 0 <= t < j ==> f.ensures((&(p0[n + t]->0).1,), #[trigger] keep_overflow@[t]),
            decreases m - j,
        {
            let v = self.table.overflow_ref(j);
            let b = f(v);
            keep_overflow.push(b);
            j = j + 1;
        }
        let ghost keep = keep_slots@.add(keep_overflow@);
        let _removed = self.table.retain_places(&keep_slots, &keep_overflow);
        proof {
            lemma_set_of_kept(p0, keep);
            assert forall|e: (u64, T)| #[trigger] old(self)@.contains(e) implies f.ensures(
                (&e.1,),
                self@.contains(e),
            ) by {
                lemma_slots_ms_member(p0, e);
                let i = choose|i: int| 0 <= i < p0.len() && p0[i] == Some(e);
                assert(set_of(kept(p0, keep)).contains(p0[i]->0) <==> keep[i]);
                if i < n {
                    assert(keep[i] == keep_slots@[i]);
                } else {
                    assert(keep[i] == keep_overflow@[i - n]);
                    assert(p0[n + (i - n)] == p0[i]);
                }
            }
        }
    }

    /// Removes the values for which `f` returns `true` and returns an
    /// iterator over them; `f` is called once on each value. `f` may change
    /// a value it takes out, and must leave the ones it keeps as they were.
    /// The values are removed by this call, whether or not the iterator is
    /// used.
    pub fn extract_if<F: FnMut(&mut T) -> bool>(&mut self, mut f: F) -> (it: ExtractIf<T>)
        requires
            old(self).wf(),
            forall|v: &mut T| f.requires((v,)),
            forall|v: &mut T| #[trigger] f.ensures((v,), false) ==> *final(v) == *v,
        ensures
            final(self).wf(),
            final(self).builder() == old(self).builder(),
            final(self).spec_capacity() == old(self).spec_capacity(),
            forall|e: (u64, T)| #[trigger] final(self)@.contains(e) ==> old(self)@.contains(e),
            forall|e: (u64, T)| #[trigger] old(self)@.contains(e) && final(self)@.contains(e) ==> (exists|v: &mut T|
                *v == e.1 && #[trigger] f.ensures((v,), false)),
            forall|e: (u64, T)| #[trigger] old(self)@.contains(e) && !final(self)@.contains(e) ==> (exists|v: &mut T|
                *v == e.1 && it.remaining().contains(*final(v)) && #[trigger] f.ensures((v,), true)),
            it.remaining().len() + final(self).spec_len() == old(self).spec_len(),
    {
        let ghost p0 = self.table.places();
        let ghost f0 = f;
        proof {
            self.table.lemma_places();
        }
        let n = self.table.slot_count();
        let mut keep_slots: Vec<bool> = Vec::new();
        let mut i: usize = 0;
        while i < n
            invariant
                self.builder() == old(self).builder(),
                f == f0,
                forall|v: &mut T| f.requires((v,)),
                forall|v: &mut T| #[trigger] f.ensures((v,), false) ==> *final(v) == *v,
                self.table.wf(),
                self.table.spec_capacity() == old(self).table.spec_capacity(),
                self.table.num_slots() == n,
                n == old(self).table.num_slots(),
                n <= p0.len(),
                p0 == old(self).table.places(),
                self.table.places().len() == p0.len(),
                i <= n,
                keep_slots@.len() == i,
                forall|t: int| i <= t < p0.len() ==> self.table.places()[t] == p0[t],
                forall|t: int| 0 <= t < p0.len() ==> (#[trigger] p0[t] is Some <==> self.table.places()[t] is Some),
                forall|t: int| 0 <= t < p0.len() && p0[t] is Some ==> (#[trigger] self.table.places()[t]->0).0 == (p0[t]->0).0,
                forall|t: int| 0 <= t < i && keep_slots@[t] ==> #[trigger] self.table.places()[t] == p0[t],
                forall|t: int| 0 <= t < i && (#[trigger] p0[t]) is Some ==> exists|v: &mut T| {
                    &&& *v == (p0[t]->0).1
                    &&& *final(v) == (self.table.places()[t]->0).1
                    &&& f.ensures((v,), !keep_slots@[t])
                },
            decreases n - i,
        {
            let occupied = self.table.slot_ref(i).is_some();
            if occupied {
                let v = self.table.slot_mut(i);
                let b = f(v);
                keep_slots.push(!b);
            } else {
                keep_slots.push(true);
            }
            i = i + 1;
        }
        let m = self.table.overflow_len();
        let mut keep_overflow: Vec<bool> = Vec::new();
        let mut j: usize = 0;
        while j < m
            invariant
                self.builder() == old(self).builder(),
                f == f0,
                forall|v: &mut T| f.requires((v,)),
                forall|v: &mut T| #[trigger] f.ensures((v,), false) ==> *final(v) == *v,
                self.table.wf(),
                self.table.spec_capacity() == old(self).table.spec_capacity(),
                self.table.num_slots() == n,
                n == old(self).table.num_slots(),
                p0 == old(self).table.places(),
                m == p0.len() - n,
                self.table.places().len() == p0.len(),
                j <= m,
                keep_slots@.len() == n,
                keep_overflow@.len() == j,
                forall|t: int| n + j <= t < p0.len() ==> self.table.places()[t] == p0[t],
                forall|t: int| 0 <= t < p0.len() ==> (#[trigger] p0[t] is Some <==> self.table.places()[t] is Some),
                forall|t: int| 0 <= t < p0.len() && p0[t] is Some ==> (#[trigger] self.table.places()[t]->0).0 == (p0[t]->0).0,
                forall|t: int| 0 <= t < n && keep_slots@[t] ==> #[trigger] self.table.places()[t] == p0[t],
                forall|t: int| n <= t < n + j && keep_overflow@[t - n] ==> #[trigger] self.table.places()[t] == p0[t],
                forall|t: int| 0 <= t < n && (#[trigger] p0[t]) is Some ==> exists|v: &mut T| {
                    &&& *v == (p0[t]->0).1
                    &&& *final(v) == (self.table.places()[t]->0).1
                    &&& f.ensures((v,), !keep_slots@[t])
                },
                forall|t: int| n <= t < n + j && (#[trigger] p0[t]) is Some ==> exists|v: &mut T| {
                    &&& *v == (p0[t]->0).1
                    &&& *final(v) == (self.table.places()[t]->0).1
                    &&& f.ensures((v,), !keep_overflow@[t - n])
                },
            decreases m - j,
        {
            let v = self.table.overflow_mut(j);
            let b = f(v);
            keep_overflow.push(!b);
            j = j + 1;
        }
        let ghost p1 = self.table.places();
        let ghost keep = keep_slots@.add(keep_overflow@);
        proof {
            assert forall|t: int| 0 <= t < p0.len() && keep[t] implies p0[t] == p1[t] by {
                if t >= n {
                    assert(keep[t] == keep_overflow@[t - n]);
                }
            }
            lemma_kept_same(p0, p1, keep);
        }
        let removed = self.table.retain_places(&keep_slots, &keep_overflow);
        let it = ExtractIf { items: removed };
        proof {
            lemma_set_of_kept(p0, keep);
            let rem = it.remaining();
            assert forall|e: (u64, T)| #[trigger] old(self)@.contains(e) implies (self@.contains(e) ==> (exists|v: &mut T|
                *v == e.1 && #[trigger] f.ensures((v,), false))) && (!self@.contains(e) ==> (exists|v: &mut T|
                *v == e.1 && it.remaining().contains(*final(v)) && #[trigger] f.ensures((v,), true))) by {
                lemma_slots_ms_member(p0, e);
                let i = choose|i: int| 0 <= i < p0.len() && p0[i] == Some(e);
                assert(set_of(kept(p0, keep)).contains(p0[i]->0) <==> keep[i]);
                assert(p0[i] is Some);
                let flag = if i < n { keep_slots@[i] } else { keep_overflow@[i - n] };
                assert(keep[i] == flag);
                let v = choose|v: &mut T| {
                    &&& *v == (p0[i]->0).1
                    &&& *final(v) == (p1[i]->0).1
                    &&& f.ensures((v,), !flag)
                };
                if !keep[i] {
                    let e1 = p1[i]->0;
                    assert(p1[i] is Some);
                    crate::slot_model::lemma_dropped_has(p1, keep, i);
                    lemma_seq_ms_member(removed@, e1);
                    let j = choose|j: int| 0 <= j < removed@.len() && removed@[j] == e1;
                    assert(rem[removed@.len() - 1 - j] == e1.1);
                    assert(rem.contains(*final(v)));
                }
            }
            lemma_seq_ms_len(removed@);
            lemma_kept_split(p1, keep);
            crate::slot_model::lemma_slots_ms_len_same(p0, p1);
        }
        it
    }
}

/// An iterator over the values that [`HashSet::extract_if`] took out of the
/// set.
pub struct ExtractIf<T> {
    items: Vec<(u64, T)>,
}

impl<T> ExtractIf<T> {
    /// The values still to be yielded, in order.
    pub closed spec fn remaining(&self) -> Seq<T> {
        self.items@.reverse().map_values(|e: (u64, T)| e.1)
    }

    /// Yields the next extracted value.
    pub fn next(&mut self) -> (r: Option<T>)
        ensures
            match r {
                Some(v) => {
                    &&& old(self).remaining().len() > 0
                    &&& v == old(self).remaining()[0]
                    &&& final(self).remaining() == old(self).remaining().drop_first()
                },
                None => {
                    &&& old(self).remaining().len() == 0
                    &&& final(self).remaining() == old(self).remaining()
                },
            },
    {
        proof {
            if self.items@.len() > 0 {
                assert(self.items@.reverse().map_values(|e: (u64, T)| e.1).drop_first()
                    =~= self.items@.drop_last().reverse().map_values(|e: (u64, T)| e.1));
            }
        }
        match self.items.pop() {
            Some(e) => Some(e.1),
            None => None,
        }
    }
}

impl<T, S> HashSet<T, S> {
    /// The length of a set is the number of its values: one element per
    /// stored value.
    pub proof fn lemma_len_is_size(&self)
        requires
            self.wf(),
        ensures
            self@.finite(),
            self@.len() == self.spec_len(),
    {
        lemma_set_of_len(self.table@);
    }
}

/// A value is in the set after it was inserted, and the other values are as
/// before.
pub proof fn lemma_contains_after_insert<T, S>(before: HashSet<T, S>, after: HashSet<T, S>, hash: u64, value: T)
    requires
        after@ == before@.insert((hash, value)),
    ensures
        after@.contains((hash, value)),
        forall|e: (u64, T)| e != (hash, value) ==> (#[trigger] after@.contains(e) <==> before@.contains(e)),
{
}

/// Removing a value that an insertion added undoes the insertion: the same
/// values and the same length.
pub proof fn lemma_remove_undoes_insert<T, S>(
    s0: HashSet<T, S>,
    s1: HashSet<T, S>,
    s2: HashSet<T, S>,
    hash: u64,
    value: T,
)
    requires
        s0.wf(),
        s2.wf(),
        !s0@.contains((hash, value)),
        s1@ == s0@.insert((hash, value)),
        s2@ == s1@.remove((hash, value)),
    ensures
        s2@ == s0@,
        s2.spec_len() == s0.spec_len(),
{
    assert(s2@ =~= s0@);
    s0.lemma_len_is_size();
    s2.lemma_len_is_size();
}

/// Inserting a value a second time changes nothing.
pub proof fn lemma_insert_idempotent<T, S>(
    s0: HashSet<T, S>,
    s1: HashSet<T, S>,
    s2: HashSet<T, S>,
    hash: u64,
    value: T,
)
    requires
        s1.wf(),
        s2.wf(),
        s1@ == s0@.insert((hash, value)),
        s2@ == s1@.insert((hash, value)),
    ensures
        s2@ == s1@,
        s2.spec_len() == s1.spec_len(),
{
    assert(s2@ =~= s1@);
    s1.lemma_len_is_size();
    s2.lemma_len_is_size();
}

/// Every value of `m` is stored under the hash that `f` gives it.
pub open spec fn hashed_by<T>(m: Set<(u64, T)>, f: spec_fn(T) -> u64) -> bool {
    forall|e: (u64, T)| #[trigger] m.contains(e) ==> e.0 == f(e.1)
}

/// The hashes that `f` gives the values of `vals`, in order.
pub open spec fn hashes_of<T>(vals: Seq<T>, f: spec_fn(T) -> u64) -> Seq<u64> {
    vals.map_values(|v: T| f(v))
}

/// Where both sets store every value under the hash one function gives
/// it, and each value is looked up under that hash: no value of `a` is in
/// `b` exactly when the two sets share no value, so disjointness does not
/// depend on which set is walked; and every value of `a` is in `b` exactly
/// when each value of `a` is a value of `b`.
pub proof fn lemma_lookups_exact<T, S>(a: HashSet<T, S>, b: HashSet<T, S>, f: spec_fn(T) -> u64)
    requires
        a.wf(),
        b.wf(),
        hashed_by(a@, f),
        hashed_by(b@, f),
    ensures
        lookups_all(a.items(), hashes_of(a.items(), f), b@, false) == !exists|v: T|
            #[trigger] found(a@, v) && found(b@, v),
        lookups_all(a.items(), hashes_of(a.items(), f), b@, false) == lookups_all(
            b.items(),
            hashes_of(b.items(), f),
            a@,
            false,
        ),
        lookups_all(a.items(), hashes_of(a.items(), f), b@, true) == forall|v: T|
            #[trigger] found(a@, v) ==> found(b@, v),
{
    lemma_walk_exact(a, b, f);
    lemma_walk_exact(b, a, f);
    assert((exists|v: T| #[trigger] found(a@, v) && found(b@, v)) == (exists|v: T|
        #[trigger] found(b@, v) && found(a@, v)));
}

/// Where every value is stored under the hash that `f` gives it: a value
/// looked up under that hash is found exactly when iteration yields it, and
/// iteration yields no value twice.
pub proof fn lemma_contains_exact<T, S>(s: HashSet<T, S>, f: spec_fn(T) -> u64)
    requires
        s.wf(),
        hashed_by(s@, f),
    ensures
        forall|v: T| #[trigger] s@.contains((f(v), v)) <==> s.items().contains(v),
        forall|i: int, j: int| 0 <= i < j < s.items().len() ==> #[trigger] s.items()[i] != #[trigger] s.items()[j],
{
    s.lemma_items();
    let items = s.items();
    assert forall|v: T| #[trigger] s@.contains((f(v), v)) <==> items.contains(v) by {
        if items.contains(v) {
            let i = choose|i: int| 0 <= i < items.len() && items[i] == v;
            assert(found(s@, items[i]));
            let h = choose|h: u64| s@.contains((h, items[i]));
            assert(s@.contains((h, items[i])));
        }
    }
    let t = s.table;
    t.lemma_values_are_entries();
    let e = t.entries_in_order();
    assert forall|i: int, j: int| 0 <= i < j < items.len() implies #[trigger] items[i] != #[trigger] items[j] by {
        if items[i] == items[j] {
            assert(items == entry_values(e));
            assert(items[i] == e[i].1 && items[j] == e[j].1);
            lemma_seq_ms_update(e, i, e[i]);
            lemma_seq_ms_update(e, j, e[j]);
            assert(s@.contains(e[i]));
            assert(s@.contains(e[j]));
            assert(e[i] == e[j]);
            crate::slot_model::lemma_seq_ms_two(e, i, j);
            assert(t@.count(e[i]) <= 1);
        }
    }
}

/// Walking the values of `a` and looking each up in `b` under the hash `f`
/// gives it finds exactly the values the two sets share.
proof fn lemma_walk_exact<T, S>(a: HashSet<T, S>, b: HashSet<T, S>, f: spec_fn(T) -> u64)
    requires
        a.wf(),
        b.wf(),
        hashed_by(b@, f),
    ensures
        lookups_all(a.items(), hashes_of(a.items(), f), b@, false) == !exists|v: T|
            #[trigger] found(a@, v) && found(b@, v),
        lookups_all(a.items(), hashes_of(a.items(), f), b@, true) == forall|v: T|
            #[trigger] found(a@, v) ==> found(b@, v),
{
    a.lemma_items();
    let items = a.items();
    let hs = hashes_of(items, f);
    assert forall|i: int| 0 <= i < items.len() implies (b@.contains((hs[i], items[i])) <==> found(
        b@,
        items[i],
    )) by {
        if found(b@, items[i]) {
            let h = choose|h: u64| b@.contains((h, items[i]));
            assert(b@.contains((h, items[i])));
        }
    }
    if exists|v: T| #[trigger] found(a@, v) && found(b@, v) {
        let v = choose|v: T| #[trigger] found(a@, v) && found(b@, v);
        let h = choose|h: u64| a@.contains((h, v));
        assert(a@.contains((h, v)));
        assert(items.contains(v));
        let i = choose|i: int| 0 <= i < items.len() && items[i] == v;
        assert(b@.contains((hs[i], items[i])));
    }
    if !lookups_all(items, hs, b@, false) {
        let i = choose|i: int| 0 <= i < items.len() && b@.contains((hs[i], #[trigger] items[i])) != false;
        assert(found(a@, items[i]));
        assert(found(b@, items[i]));
    }
    if lookups_all(items, hs, b@, true) {
        assert forall|v: T| #[trigger] found(a@, v) implies found(b@, v) by {
            let h = choose|h: u64| a@.contains((h, v));
            assert(a@.contains((h, v)));
            assert(items.contains(v));
            let i = choose|i: int| 0 <= i < items.len() && items[i] == v;
            assert(b@.contains((hs[i], items[i])) == true);
        }
    } else {
        let i = choose|i: int| 0 <= i < items.len() && b@.contains((hs[i], #[trigger] items[i])) != true;
        assert(found(a@, items[i]));
        assert(!found(b@, items[i]));
    }
}


/// A value looked up under the hash the set's builder gives it is found
/// exactly when the set holds it: where every value is stored under the
/// hash the builder gives it and the builder gives each value one hash.
pub proof fn lemma_lookup_by_builder<T: Hash, S: BuildHasher>(s: HashSet<T, S>, value: T, hash: u64)
    requires
        stored_by(s@, s.builder()),
        hashes_consistently::<S, T>(s.builder()),
        hashes_to(s.builder(), value, hash),
    ensures
        s@.contains((hash, value)) == found(s@, value),
{
    if found(s@, value) {
        let h = choose|h: u64| s@.contains((h, value));
        assert(hashes_to(s.builder(), value, h));
    }
}

/// Values looked up under the hashes the set's builder gives them are
/// found exactly when the set holds them.
pub proof fn lemma_lookups_by_builder<T: Hash, S: BuildHasher>(s: HashSet<T, S>, vals: Seq<T>, hashes: Seq<u64>)
    requires
        stored_by(s@, s.builder()),
        hashes_consistently::<S, T>(s.builder()),
        hashes_by(s.builder(), vals, hashes),
    ensures
        forall|i: int| 0 <= i < vals.len() ==> s@.contains((hashes[i], #[trigger] vals[i])) == found(s@, vals[i]),
{
    assert forall|i: int| 0 <= i < vals.len() implies s@.contains((hashes[i], #[trigger] vals[i])) == found(
        s@,
        vals[i],
    ) by {
        lemma_lookup_by_builder(s, vals[i], hashes[i]);
    }
}

/// Taking values out keeps every value stored under the hash the set's
/// builder gives it: what `remove`, `take`, `retain`, `extract_if` and
/// `clear` leave is part of what was there, with the same builder.
pub proof fn lemma_removal_keeps_stored_by<T: Hash, S: BuildHasher>(s0: HashSet<T, S>, s1: HashSet<T, S>)
    requires
        stored_by(s0@, s0.builder()),
        s1.builder() == s0.builder(),
        forall|e: (u64, T)| #[trigger] s1@.contains(e) ==> s0@.contains(e),
    ensures
        stored_by(s1@, s1.builder()),
{
}

/// Inserting a value keeps every value stored under the hash the set's
/// builder gives it.
pub proof fn lemma_insert_keeps_stored_by<T: Hash, S: BuildHasher>(s0: HashSet<T, S>, s1: HashSet<T, S>, value: T)
    requires
        stored_by(s0@, s0.builder()),
        s1.builder() == s0.builder(),
        exists|h: u64| #[trigger] hashes_to(s0.builder(), value, h) && s1@ == s0@.insert((h, value)),
    ensures
        stored_by(s1@, s1.builder()),
{
}

/// Whatever the two sets hold, `is_subset` answers whether `a` holds no
/// more values than `b` and every value of `a` is a value of `b`: where `b`
/// stores every value under the hash its builder gives it and the builder
/// gives each value one hash.
pub proof fn lemma_is_subset_exact<T: Hash, S: BuildHasher>(a: HashSet<T, S>, b: HashSet<T, S>, r: bool)
    requires
        a.wf(),
        stored_by(b@, b.builder()),
        hashes_consistently::<S, T>(b.builder()),
        exists|hs: Seq<u64>|
            #[trigger] seq_of_len(hs, a.spec_len()) && r == (a.spec_len() <= b.spec_len() && lookups_all(
                a.items(),
                hs,
                b@,
                true,
            )),
        a.spec_len() <= b.spec_len() ==> exists|hs: Seq<u64>|
            #[trigger] hashes_by(b.builder(), a.items(), hs) && r == lookups_all(a.items(), hs, b@, true),
    ensures
        r == (a.spec_len() <= b.spec_len() && forall|v: T| #[trigger] found(a@, v) ==> found(b@, v)),
{
    a.lemma_items();
    if a.spec_len() <= b.spec_len() {
        let hs = choose|hs: Seq<u64>| #[trigger] hashes_by(b.builder(), a.items(), hs) && r == lookups_all(
            a.items(),
            hs,
            b@,
            true,
        );
        lemma_lookups_by_builder(b, a.items(), hs);
        let items = a.items();
        if r {
            assert forall|v: T| #[trigger] found(a@, v) implies found(b@, v) by {
                let h = choose|h: u64| a@.contains((h, v));
                assert(a@.contains((h, v)));
                let i = choose|i: int| 0 <= i < items.len() && items[i] == v;
                assert(b@.contains((hs[i], items[i])));
            }
        } else {
            let i = choose|i: int| 0 <= i < items.len() && !b@.contains((hs[i], #[trigger] items[i]));
            assert(found(a@, items[i]));
        }
    }
}

/// A set each of whose values is a value of `b` holds no more values than
/// `b`: where it stores every value under the hash its builder gives it and
/// the builder gives each value one hash.
pub proof fn lemma_values_within_len<T: Hash, S: BuildHasher>(a: HashSet<T, S>, b: HashSet<T, S>)
    requires
        a.wf(),
        b.wf(),
        stored_by(a@, a.builder()),
        hashes_consistently::<S, T>(a.builder()),
        forall|v: T| #[trigger] found(a@, v) ==> found(b@, v),
    ensures
        a.spec_len() <= b.spec_len(),
{
    a.lemma_len_is_size();
    b.lemma_len_is_size();
    let g = |q: (u64, T)| (choose|h: u64| b@.contains((h, q.1)), q.1);
    assert forall|q1: (u64, T), q2: (u64, T)|
        a@.contains(q1) && a@.contains(q2) && #[trigger] g(q1) == #[trigger] g(q2) implies q1 == q2 by {
        assert(hashes_to(a.builder(), q1.1, q1.0));
        assert(hashes_to(a.builder(), q2.1, q2.0));
    }
    let y = a@.map(g);
    vstd::set_lib::lemma_map_size(a@, y, g);
    assert forall|q: (u64, T)| #[trigger] y.contains(q) implies b@.contains(q) by {
        let p = choose|p: (u64, T)| a@.contains(p) && g(p) == q;
        assert(found(a@, p.1));
    }
    vstd::set_lib::lemma_len_subset(y, b@);
}

/// `is_subset` answers whether every value of `a` is a value of `b`: where
/// each set stores every value under the hash its builder gives it and each
/// builder gives a value one hash.
pub proof fn lemma_is_subset_by_values<T: Hash, S: BuildHasher>(a: HashSet<T, S>, b: HashSet<T, S>, r: bool)
    requires
        a.wf(),
        b.wf(),
        stored_by(a@, a.builder()),
        stored_by(b@, b.builder()),
        hashes_consistently::<S, T>(a.builder()),
        hashes_consistently::<S, T>(b.builder()),
        exists|hs: Seq<u64>|
            #[trigger] seq_of_len(hs, a.spec_len()) && r == (a.spec_len() <= b.spec_len() && lookups_all(
                a.items(),
                hs,
                b@,
                true,
            )),
        a.spec_len() <= b.spec_len() ==> exists|hs: Seq<u64>|
            #[trigger] hashes_by(b.builder(), a.items(), hs) && r == lookups_all(a.items(), hs, b@, true),
    ensures
        r == forall|v: T| #[trigger] found(a@, v) ==> found(b@, v),
{
    lemma_is_subset_exact(a, b, r);
    if forall|v: T| #[trigger] found(a@, v) ==> found(b@, v) {
        lemma_values_within_len(a, b);
    }
}

/// `is_disjoint` answers whether the two sets share no value, whichever of
/// them holds more: where each set stores every value under the hash its
/// builder gives it and each builder gives a value one hash.
pub proof fn lemma_is_disjoint_exact<T: Hash, S: BuildHasher>(a: HashSet<T, S>, b: HashSet<T, S>, r: bool)
    requires
        a.wf(),
        b.wf(),
        stored_by(a@, a.builder()),
        stored_by(b@, b.builder()),
        hashes_consistently::<S, T>(a.builder()),
        hashes_consistently::<S, T>(b.builder()),
        a.spec_len() <= b.spec_len() ==> exists|hs: Seq<u64>|
            #[trigger] hashes_by(b.builder(), a.items(), hs) && r == lookups_all(a.items(), hs, b@, false),
        a.spec_len() > b.spec_len() ==> exists|hs: Seq<u64>|
            #[trigger] hashes_by(a.builder(), b.items(), hs) && r == lookups_all(b.items(), hs, a@, false),
    ensures
        r == !exists|v: T| #[trigger] found(a@, v) && found(b@, v),
{
    if a.spec_len() <= b.spec_len() {
        let hs = choose|hs: Seq<u64>| #[trigger] hashes_by(b.builder(), a.items(), hs) && r == lookups_all(
            a.items(),
            hs,
            b@,
            false,
        );
        lemma_disjoint_walk(a, b, hs);
    } else {
        let hs = choose|hs: Seq<u64>| #[trigger] hashes_by(a.builder(), b.items(), hs) && r == lookups_all(
            b.items(),
            hs,
            a@,
            false,
        );
        lemma_disjoint_walk(b, a, hs);
        assert((exists|v: T| #[trigger] found(a@, v) && found(b@, v)) == (exists|v: T|
            #[trigger] found(b@, v) && found(a@, v)));
    }
}

/// Walking `a` and looking each value up in `b` under the hash `b`'s
/// builder gives it finds none exactly when the sets share no value.
proof fn lemma_disjoint_walk<T: Hash, S: BuildHasher>(a: HashSet<T, S>, b: HashSet<T, S>, hs: Seq<u64>)
    requires
        a.wf(),
        stored_by(b@, b.builder()),
        hashes_consistently::<S, T>(b.builder()),
        hashes_by(b.builder(), a.items(), hs),
    ensures
        lookups_all(a.items(), hs, b@, false) == !exists|v: T| #[trigger] found(a@, v) && found(b@, v),
{
    a.lemma_items();
    lemma_lookups_by_builder(b, a.items(), hs);
    let items = a.items();
    if exists|v: T| #[trigger] found(a@, v) && found(b@, v) {
        let v = choose|v: T| #[trigger] found(a@, v) && found(b@, v);
        let h = choose|h: u64| a@.contains((h, v));
        assert(a@.contains((h, v)));
        let i = choose|i: int| 0 <= i < items.len() && items[i] == v;
        assert(b@.contains((hs[i], items[i])));
    }
    if !lookups_all(items, hs, b@, false) {
        let i = choose|i: int| 0 <= i < items.len() && b@.contains((hs[i], #[trigger] items[i]));
        assert(found(a@, items[i]) && found(b@, items[i]));
    }
}

/// The values `intersection` looks at pass its lookup exactly when both
/// sets hold them, and every value both sets hold is among them: where each
/// set stores every value under the hash its builder gives it and each
/// builder gives a value one hash. `vals`, `hashes` and `looked_in` are the
/// iterator's remaining values, their hashes and the set it looks them up
/// in, as `intersection` returns it.
pub proof fn lemma_intersection_exact<T: Hash, S: BuildHasher>(
    a: HashSet<T, S>,
    b: HashSet<T, S>,
    vals: Seq<T>,
    hashes: Seq<u64>,
    looked_in: Set<(u64, T)>,
)
    requires
        a.wf(),
        b.wf(),
        stored_by(a@, a.builder()),
        stored_by(b@, b.builder()),
        hashes_consistently::<S, T>(a.builder()),
        hashes_consistently::<S, T>(b.builder()),
        a.spec_len() <= b.spec_len() ==> vals == a.items() && looked_in == b@ && hashes_by(b.builder(), vals, hashes),
        a.spec_len() > b.spec_len() ==> vals == b.items() && looked_in == a@ && hashes_by(a.builder(), vals, hashes),
    ensures
        forall|i: int|
            0 <= i < vals.len() ==> (looked_in.contains((hashes[i], #[trigger] vals[i])) <==> found(a@, vals[i])
                && found(b@, vals[i])),
        forall|v: T| #[trigger] found(a@, v) && found(b@, v) ==> vals.contains(v),
{
    a.lemma_items();
    b.lemma_items();
    if a.spec_len() <= b.spec_len() {
        lemma_lookups_by_builder(b, vals, hashes);
        assert forall|i: int| 0 <= i < vals.len() implies found(a@, #[trigger] vals[i]) by {}
        assert forall|v: T| #[trigger] found(a@, v) && found(b@, v) implies vals.contains(v) by {
            let h = choose|h: u64| a@.contains((h, v));
            assert(a@.contains((h, v)));
        }
    } else {
        lemma_lookups_by_builder(a, vals, hashes);
        assert forall|i: int| 0 <= i < vals.len() implies found(b@, #[trigger] vals[i]) by {}
        assert forall|v: T| #[trigger] found(a@, v) && found(b@, v) implies vals.contains(v) by {
            let h = choose|h: u64| b@.contains((h, v));
            assert(b@.contains((h, v)));
        }
    }
}

/// The values `difference` looks at pass its lookup exactly when `b` does
/// not hold them, and they are the values of `a`: where `b` stores every
/// value under the hash its builder gives it and the builder gives each
/// value one hash. `vals`, `hashes` and `looked_in` are the iterator's
/// remaining values, their hashes and the set it looks them up in, as
/// `difference` returns it; so are the second part of `union` (with `a` the
/// other set and `b` the set it is called on) and each part of
/// `symmetric_difference`.
pub proof fn lemma_difference_exact<T: Hash, S: BuildHasher>(
    a: HashSet<T, S>,
    b: HashSet<T, S>,
    vals: Seq<T>,
    hashes: Seq<u64>,
    looked_in: Set<(u64, T)>,
)
    requires
        a.wf(),
        stored_by(b@, b.builder()),
        hashes_consistently::<S, T>(b.builder()),
        vals == a.items(),
        looked_in == b@,
        hashes_by(b.builder(), vals, hashes),
    ensures
        forall|i: int|
            0 <= i < vals.len() ==> (!looked_in.contains((hashes[i], #[trigger] vals[i])) <==> !found(b@, vals[i])),
        forall|v: T| #[trigger] found(a@, v) <==> vals.contains(v),
{
    a.lemma_items();
    lemma_lookups_by_builder(b, vals, hashes);
    assert forall|v: T| #[trigger] found(a@, v) <==> vals.contains(v) by {
        if found(a@, v) {
            let h = choose|h: u64| a@.contains((h, v));
            assert(a@.contains((h, v)));
        }
        if vals.contains(v) {
            let i = choose|i: int| 0 <= i < vals.len() && vals[i] == v;
            assert(found(a@, vals[i]));
        }
    }
}

/// After `insert(value)`, `contains(&value)` is `true`: both hash the value
/// with the same builder, which gives it one hash. The conditions on `s1`
/// and `r` are what `insert` and `contains` promise.
pub proof fn lemma_contains_after_insert_by_builder<T: Hash, S: BuildHasher>(
    s0: HashSet<T, S>,
    s1: HashSet<T, S>,
    value: T,
    r: bool,
)
    requires
        hashes_consistently::<S, T>(s0.builder()),
        s1.builder() == s0.builder(),
        exists|h: u64| #[trigger] hashes_to(s0.builder(), value, h) && s1@ == s0@.insert((h, value)),
        exists|h: u64| #[trigger] hashes_to(s1.builder(), value, h) && r == s1@.contains((h, value)),
    ensures
        r,
{
    let h0 = choose|h: u64| #[trigger] hashes_to(s0.builder(), value, h) && s1@ == s0@.insert((h, value));
    let h1 = choose|h: u64| #[trigger] hashes_to(s1.builder(), value, h) && r == s1@.contains((h, value));
    assert(h0 == h1);
}

/// After `insert(value)` into a set that did not hold the value,
/// `remove(&value)` returns `true` and leaves the set as it was: both hash
/// the value with the same builder, which gives it one hash. The conditions
/// on `s1`, `s2` and `r` are what `insert` and `remove` promise.
pub proof fn lemma_remove_after_insert_by_builder<T: Hash, S: BuildHasher>(
    s0: HashSet<T, S>,
    s1: HashSet<T, S>,
    s2: HashSet<T, S>,
    value: T,
    r: bool,
)
    requires
        hashes_consistently::<S, T>(s0.builder()),
        !found(s0@, value),
        s1.builder() == s0.builder(),
        exists|h: u64| #[trigger] hashes_to(s0.builder(), value, h) && s1@ == s0@.insert((h, value)),
        exists|h: u64|
            #[trigger] hashes_to(s1.builder(), value, h) && r == s1@.contains((h, value)) && s2@ == s1@.remove(
                (h, value),
            ),
    ensures
        r,
        s2@ == s0@,
{
    let h0 = choose|h: u64| #[trigger] hashes_to(s0.builder(), value, h) && s1@ == s0@.insert((h, value));
    let h1 = choose|h: u64|
        #[trigger] hashes_to(s1.builder(), value, h) && r == s1@.contains((h, value)) && s2@ == s1@.remove(
            (h, value),
        );
    assert(h0 == h1);
    assert(!s0@.contains((h0, value)));
    assert(s2@ =~= s0@);
}

/// Replacing a value right after inserting it finds it there: `replace`
/// gives the value back and the set keeps its values and its length, where
/// the builder gives each value one hash. The conditions on `s1` and `s2`
/// are what `insert` and `replace` promise.
pub proof fn lemma_replace_after_insert<T: Hash, S: BuildHasher>(
    s0: HashSet<T, S>,
    s1: HashSet<T, S>,
    s2: HashSet<T, S>,
    value: T,
    inserted: bool,
    r: Option<T>,
)
    requires
        hashes_consistently::<S, T>(s0.builder()),
        s1.builder() == s0.builder(),
        exists|h: u64|
            #![trigger s0@.contains((h, value))]
            {
                &&& hashes_to(s0.builder(), value, h)
                &&& inserted == !s0@.contains((h, value))
                &&& s1@ == s0@.insert((h, value))
            },
        exists|h: u64|
            #![trigger s1@.contains((h, value))]
            {
                &&& hashes_to(s1.builder(), value, h)
                &&& match r {
                    Some(v) => v == value && s1@.contains((h, value)),
                    None => !s1@.contains((h, value)),
                }
                &&& s2@ == s1@.insert((h, value))
            },
        s2.spec_len() == s1.spec_len() + (if r is None { 1int } else { 0int }),
    ensures
        r == Some(value),
        s2@ == s1@,
        s2.spec_len() == s1.spec_len(),
{
    let h0 = choose|h: u64|
        #![trigger s0@.contains((h, value))]
        {
            &&& hashes_to(s0.builder(), value, h)
            &&& inserted == !s0@.contains((h, value))
            &&& s1@ == s0@.insert((h, value))
        };
    let h1 = choose|h: u64|
        #![trigger s1@.contains((h, value))]
        {
            &&& hashes_to(s1.builder(), value, h)
            &&& match r {
                Some(v) => v == value && s1@.contains((h, value)),
                None => !s1@.contains((h, value)),
            }
            &&& s2@ == s1@.insert((h, value))
        };
    assert(h0 == h1);
    assert(s1@.contains((h1, value)));
    assert(s2@ =~= s1@);
}

} // verus!
