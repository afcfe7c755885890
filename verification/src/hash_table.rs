//! The hopscotch hash table.
//!
//! [`HashTable<V>`] stores values of type `V` together with the 64-bit hash
//! each was inserted under. Every operation is given the hash of the value
//! it looks for and an equality predicate; a value is identified by both.
//! Values live in a contiguous sequence of 16-slot buckets. A hash selects a
//! root bucket (`hash & max_root_mask`) and the value is stored in one of the
//! `HOP_RANGE` buckets that start at the root, its neighborhood. Each root
//! keeps, per neighbor bucket, the number of its entries stored there, so
//! that a lookup only scans the buckets that hold entries of its root. Each
//! slot carries a 7-bit tag made of the top bits of the hash, which filters
//! candidates before the full hash and the predicate are checked.
//!
//! When no free slot is left in the neighborhood, a free slot further ahead
//! is bubbled backwards, by moving entries that stay within their own
//! neighborhoods, until it falls inside. If that fails the table grows; an
//! entry whose whole neighborhood is full goes to an overflow list instead.

use vstd::prelude::*;
use vstd::multiset::Multiset;
use crate::layout::{
    hashtag, spec_capacity_for, spec_slots_for, spec_hashtag, spec_load, target_load_factor,
    target_load_factor_inverse, lemma_capacity_for, lemma_slots_for_monotone, Capacity, EMPTY, HOP_RANGE, LANES,
    MAX_REQUEST, MAX_ROOTS,
};
use crate::slot_model::{
    cnt, has_root, lemma_cnt_none, lemma_cnt_pos, lemma_seq_ms_len, lemma_seq_ms_member,
    lemma_seq_ms_push, lemma_seq_ms_swap_remove, lemma_seq_ms_update, lemma_slots_ms_all_none, lemma_slots_ms_filled,
    lemma_slots_ms_has, lemma_slots_ms_len, lemma_slots_ms_member, lemma_slots_ms_update, opt_ms,
    has_value, seq_ms, slots_ms, spec_root, some_all, kept, dropped, lemma_slots_ms_add, cnt_roots, slot_entries,
    lemma_slots_ms_some, lemma_kept_add, lemma_kept_split,
};
use crate::table_model::{
    hop_ok_at, layout_ok, lemma_layout_same_hashes, lemma_place, lemma_root_bound, lemma_set_value,
    lemma_unplace,
    roots_of, slot_ok_at, slots_of,
};

verus! {

broadcast use vstd::multiset::group_multiset_axioms;

/// A hopscotch hash table of values of type `V`.
pub struct HashTable<V> {
    hopmap: Vec<u8>,
    tags: Vec<u8>,
    buckets: Vec<Option<(u64, V)>>,
    overflow: Vec<(u64, V)>,
    populated: usize,
    max_pop: usize,
    max_root_mask: usize,
}

impl<V> View for HashTable<V> {
    type V = Multiset<(u64, V)>;

    /// The entries of the table, each with the hash it was inserted under.
    open spec fn view(&self) -> Multiset<(u64, V)> {
        self.contents()
    }
}

impl<V> HashTable<V> {
    /// The entries of the table, each with the hash it was inserted under.
    pub closed spec fn contents(&self) -> Multiset<(u64, V)> {
        slots_ms(self.buckets@).add(seq_ms(self.overflow@))
    }

    /// The number of entries the table holds before it grows.
    pub closed spec fn spec_capacity(&self) -> nat {
        self.max_pop as nat
    }

    /// The number of slots of the table.
    pub closed spec fn spec_slots(&self) -> int {
        slots_of(self.max_root_mask)
    }

    /// The values of the table in storage order: the slots in order, then the
    /// overflow list.
    pub closed spec fn values(&self) -> Seq<V> {
        slot_values(self.buckets@).add(self.overflow@.map_values(|e: (u64, V)| e.1))
    }

    /// A vacant entry for `hash` at neighbor slot `n` of root `root` (or in
    /// the overflow list) is still valid.
    pub closed spec fn vacancy_ok(&self, hash: u64, root: usize, n: usize, is_overflow: bool) -> bool {
        &&& self.max_root_mask != usize::MAX
        &&& self.populated < usize::MAX
        &&& (!is_overflow ==> {
            &&& root == spec_root(hash, self.max_root_mask)
            &&& n < HOP_RANGE * LANES
            &&& self.free_slot_for(hash, root * 16 + n)
        })
    }

    /// An occupied entry at neighbor slot `n` of root `root`, or at
    /// `overflow` in the overflow list, is valid.
    pub closed spec fn occupied_ok(&self, root: usize, n: usize, overflow: Option<usize>) -> bool {
        match overflow {
            Some(j) => j < self.overflow@.len(),
            None => {
                &&& n < HOP_RANGE * LANES
                &&& root * 16 + n < self.buckets@.len()
                &&& self.buckets@[root * 16 + n] is Some
                &&& spec_root((self.buckets@[root * 16 + n]->0).0, self.max_root_mask) == root
            },
        }
    }

    /// The entry held at a valid occupied position.
    pub closed spec fn entry_at(&self, root: usize, n: usize, overflow: Option<usize>) -> (u64, V) {
        match overflow {
            Some(j) => self.overflow@[j as int],
            None => self.buckets@[root * 16 + n]->0,
        }
    }

    /// The entry at a valid occupied position is one of the table's entries.
    pub proof fn lemma_entry_at(&self, root: usize, n: usize, overflow: Option<usize>)
        requires
            self.wf(),
            self.occupied_ok(root, n, overflow),
        ensures
            self@.count(self.entry_at(root, n, overflow)) > 0,
    {
        match overflow {
            Some(j) => {
                lemma_seq_ms_update(self.overflow@, j as int, self.overflow@[j as int]);
            },
            None => {
                lemma_slots_ms_has(self.buckets@, root * 16 + n);
            },
        }
    }

    /// Slot `i` is empty and lies in the neighborhood of `hash`'s root.
    pub closed spec fn free_slot_for(&self, hash: u64, i: int) -> bool {
        &&& 0 <= i < self.buckets@.len()
        &&& self.buckets@[i] is None
        &&& spec_root(hash, self.max_root_mask) * 16 <= i < (spec_root(hash, self.max_root_mask) + 16) * 16
    }

    /// The number of entries held in the overflow list.
    pub closed spec fn overflow_count(&self) -> nat {
        self.overflow@.len()
    }

    /// Every neighbor bucket of the root that `hash` selects holds `LANES`
    /// entries of that root: the neighborhood has no room left.
    pub closed spec fn neighborhood_full(&self, hash: u64) -> bool {
        &&& self.max_root_mask != usize::MAX
        &&& forall|n: int| 0 <= n < 16 ==> #[trigger] self.hopmap@[spec_root(hash, self.max_root_mask) * 16 + n] == LANES
    }

    /// The table has as many root buckets as it can ever get.
    pub closed spec fn at_max_size(&self) -> bool {
        roots_of(self.max_root_mask) >= MAX_ROOTS
    }

    /// No free slot can be had for `hash` without growing: no slot at or
    /// after its root is free, or the first free one lies beyond the
    /// neighborhood and no entry ahead of it may move into it.
    pub closed spec fn no_vacancy(&self, hash: u64) -> bool {
        let root = spec_root(hash, self.max_root_mask);
        ||| forall|j: int| root * 16 <= j < self.buckets@.len() ==> #[trigger] self.buckets@[j] is Some
        ||| exists|e: int| {
            &&& (root + 16) * 16 <= e < self.buckets@.len()
            &&& self.buckets@[e] is None
            &&& forall|j: int| e - 15 * 16 <= j < e ==> !#[trigger] movable(self.buckets@, self.max_root_mask, j, e)
        }
    }

    /// Re-placing the overflow entries of this table into a table of `slots`
    /// slots can meet one with no room: some well-formed table of that size,
    /// holding part of this table's entries, has no vacancy for the hash of
    /// one of this table's overflow entries.
    pub closed spec fn rebuild_blocked(&self, slots: int) -> bool {
        exists|t: HashTable<V>, e: (u64, V)|
            #[trigger] t.no_vacancy(e.0) && t.wf() && t.spec_slots() == slots && self.overflow@.contains(e)
                && t@.subset_of(self@)
    }

    /// The table's well-formedness: the hopscotch layout, the capacity that
    /// goes with its size, and the entry count.
    pub closed spec fn wf(&self) -> bool {
        &&& layout_ok(self.hopmap@, self.tags@, self.buckets@, self.max_root_mask)
        &&& self.max_pop == spec_load(slots_of(self.max_root_mask))
        &&& self.populated == slots_ms(self.buckets@).len() + self.overflow@.len()
        &&& (self.max_root_mask == usize::MAX ==> self.populated == 0)
    }

    /// The capacity is the target load of the slots.
    pub proof fn lemma_capacity_is_load(&self)
        requires
            self.wf(),
        ensures
            self.spec_capacity() == spec_load(self.spec_slots()),
    {
    }

    proof fn lemma_len(&self)
        requires
            self.wf(),
        ensures
            self.contents().len() == self.populated,
    {
        lemma_seq_ms_len(self.overflow@);
    }

    /// Builds a table with `cap` buckets and no entries.
    fn allocate(cap: Capacity) -> (t: Self)
        requires
            cap.base == 0 || (cap.base > HOP_RANGE && cap.base <= 2 * MAX_ROOTS + HOP_RANGE),
        ensures
            t.wf(),
            t@ =~= Multiset::empty(),
            t.max_root_mask == cap.spec_max_root_mask(),
            t.spec_capacity() == spec_load(cap.base * LANES),
            t.overflow@.len() == 0,
    {
        let mask = cap.max_root_mask();
        let total: usize = cap.base * LANES;
        let roots: usize = if cap.base == 0 {
            0
        } else {
            cap.base - HOP_RANGE
        };
        let mut hopmap: Vec<u8> = Vec::with_capacity(roots * 16);
        while hopmap.len() < roots * 16
            invariant
                roots <= 2 * MAX_ROOTS,
                hopmap@.len() <= roots * 16,
                forall|j: int| 0 <= j < hopmap@.len() ==> hopmap@[j] == 0,
            decreases roots * 16 - hopmap@.len(),
        {
            hopmap.push(0);
        }
        let mut tags: Vec<u8> = Vec::with_capacity(total);
        let mut buckets: Vec<Option<(u64, V)>> = Vec::with_capacity(total);
        while buckets.len() < total
            invariant
                tags@.len() == buckets@.len(),
                buckets@.len() <= total,
                forall|j: int| 0 <= j < buckets@.len() ==> buckets@[j] is None,
                forall|j: int| 0 <= j < tags@.len() ==> tags@[j] == EMPTY,
            decreases total - buckets@.len(),
        {
            tags.push(EMPTY);
            buckets.push(None);
        }
        let t = HashTable {
            hopmap,
            tags,
            buckets,
            overflow: Vec::new(),
            populated: 0,
            max_pop: target_load_factor(total),
            max_root_mask: mask,
        };
        proof {
            lemma_slots_ms_all_none(t.buckets@);
            assert forall|i: int| 0 <= i < t.buckets@.len() implies #[trigger] slot_ok_at(
                t.tags@,
                t.buckets@,
                mask,
                i,
            ) by {}
            assert forall|r: int, n: int| 0 <= r < roots_of(mask) && 0 <= n < 16 implies #[trigger] hop_ok_at(
                t.hopmap@,
                t.buckets@,
                mask,
                r,
                n,
            ) by {
                lemma_cnt_none(t.buckets@, mask, r, (r + n) * 16, (r + n + 1) * 16);
            }
        }
        t
    }

    /// Creates a new hash table with room for at least `capacity` entries.
    ///
    /// The actual capacity may be larger than requested due to the
    /// bucket-based organization.
    pub fn with_capacity(capacity: usize) -> (t: Self)
        requires
            capacity <= MAX_REQUEST,
        ensures
            t.wf(),
            t@ =~= Multiset::empty(),
            t.spec_capacity() == spec_capacity_for(capacity as int),
            t.spec_capacity() >= capacity,
            capacity == 0 ==> t.spec_slots() == 0,
            capacity > 0 ==> t.spec_slots() >= (1 + HOP_RANGE) * LANES,
            t.overflow_count() == 0,
    {
        let buckets_needed = (capacity + (LANES - 1)) / LANES;
        let roots = target_load_factor_inverse(buckets_needed);
        let cap = Capacity::from(roots);
        proof {
            lemma_capacity_for(capacity as int);
        }
        let t = Self::allocate(cap);
        proof {
            if capacity > 0 {
                assert(buckets_needed >= 1);
                assert(roots >= 1);
                assert(cap.base >= HOP_RANGE + 1);
                assert(slots_of(t.max_root_mask) == cap.base * LANES);
            }
        }
        t
    }

    /// Returns `true` if the table contains no elements.
    pub fn is_empty(&self) -> (r: bool)
        requires
            self.wf(),
        ensures
            r == (self@.len() == 0),
    {
        proof {
            self.lemma_len();
        }
        self.populated == 0
    }

    /// Returns the number of elements in the table.
    pub fn len(&self) -> (r: usize)
        requires
            self.wf(),
        ensures
            r == self@.len(),
    {
        proof {
            self.lemma_len();
        }
        self.populated
    }

    /// Returns the current capacity of the table: the number of elements it
    /// holds before it needs to grow, about 92% of its slots.
    pub fn capacity(&self) -> (r: usize)
        ensures
            r == self.spec_capacity(),
    {
        self.max_pop
    }

    /// Removes all elements from the table, keeping its allocated capacity.
    pub fn clear(&mut self)
        requires
            old(self).wf(),
        ensures
            final(self).wf(),
            final(self)@ =~= Multiset::empty(),
            final(self).spec_capacity() == old(self).spec_capacity(),
            final(self).spec_slots() == old(self).spec_slots(),
    {
        let total = self.buckets.len();
        let mut i: usize = 0;
        proof {
            lemma_root_bound(0, self.max_root_mask);
        }
        while i < total
            invariant
                total == self.buckets@.len(),
                self.tags@.len() == total,
                i <= total,
                forall|j: int| 0 <= j < i ==> self.buckets@[j] is None,
                forall|j: int| 0 <= j < i ==> self.tags@[j] == EMPTY,
                self.max_root_mask == old(self).max_root_mask,
                self.max_pop == old(self).max_pop,
                total == slots_of(self.max_root_mask),
                self.hopmap@.len() == roots_of(self.max_root_mask) * 16,
            decreases total - i,
        {
            self.buckets.set(i, None);
            self.tags.set(i, EMPTY);
            i = i + 1;
        }
        let hops = self.hopmap.len();
        let mut k: usize = 0;
        while k < hops
            invariant
                hops == self.hopmap@.len(),
                k <= hops,
                forall|j: int| 0 <= j < k ==> self.hopmap@[j] == 0,
                total == self.buckets@.len(),
                self.tags@.len() == total,
                forall|j: int| 0 <= j < total ==> self.buckets@[j] is None,
                forall|j: int| 0 <= j < total ==> self.tags@[j] == EMPTY,
                self.max_root_mask == old(self).max_root_mask,
                self.max_pop == old(self).max_pop,
                total == slots_of(self.max_root_mask),
                hops == roots_of(self.max_root_mask) * 16,
            decreases hops - k,
        {
            self.hopmap.set(k, 0);
            k = k + 1;
        }
        self.overflow.clear();
        self.populated = 0;
        proof {
            let mask = self.max_root_mask;
            lemma_slots_ms_all_none(self.buckets@);
            assert(self.overflow@ =~= Seq::<(u64, V)>::empty());
            assert forall|i: int| 0 <= i < self.buckets@.len() implies #[trigger] slot_ok_at(
                self.tags@,
                self.buckets@,
                mask,
                i,
            ) by {}
            assert forall|r: int, n: int| 0 <= r < roots_of(mask) && 0 <= n < 16 implies #[trigger] hop_ok_at(
                self.hopmap@,
                self.buckets@,
                mask,
                r,
                n,
            ) by {
                lemma_cnt_none(self.buckets@, mask, r, (r + n) * 16, (r + n + 1) * 16);
            }
        }
    }
}

impl<V> HashTable<V> {
    /// The root bucket of a hash.
    fn hopmap_index(&self, hash: u64) -> (r: usize)
        ensures
            r == spec_root(hash, self.max_root_mask),
            r <= self.max_root_mask,
    {
        proof {
            lemma_root_bound(hash, self.max_root_mask);
        }
        (hash as usize) & self.max_root_mask
    }

    /// Fills the empty slot `index` with an entry whose neighborhood covers
    /// it, raising the neighbor counter of the entry's root.
    fn put_slot(&mut self, index: usize, hash: u64, value: V)
        requires
            layout_ok(old(self).hopmap@, old(self).tags@, old(self).buckets@, old(self).max_root_mask),
            index < old(self).buckets@.len(),
            old(self).buckets@[index as int] is None,
            spec_root(hash, old(self).max_root_mask) * 16 <= index < (spec_root(
                hash,
                old(self).max_root_mask,
            ) + 16) * 16,
        ensures
            layout_ok(final(self).hopmap@, final(self).tags@, final(self).buckets@, final(self).max_root_mask),
            final(self).buckets@ == old(self).buckets@.update(index as int, Some((hash, value))),
            final(self).overflow == old(self).overflow,
            final(self).populated == old(self).populated,
            final(self).max_pop == old(self).max_pop,
            final(self).max_root_mask == old(self).max_root_mask,
    {
        proof {
            lemma_place(
                self.hopmap@,
                self.tags@,
                self.buckets@,
                self.max_root_mask,
                index as int,
                hash,
                value,
            );
        }
        let root = self.hopmap_index(hash);
        let neighbor = (index - root * LANES) / LANES;
        let k = root * 16 + neighbor;
        let count = self.hopmap[k];
        self.hopmap.set(k, count + 1);
        self.tags.set(index, hashtag(hash));
        self.buckets.set(index, Some((hash, value)));
    }

    /// Empties the occupied slot `index`, lowering the neighbor counter of
    /// its entry's root, and returns the entry.
    fn take_slot(&mut self, index: usize) -> (e: (u64, V))
        requires
            layout_ok(old(self).hopmap@, old(self).tags@, old(self).buckets@, old(self).max_root_mask),
            index < old(self).buckets@.len(),
            old(self).buckets@[index as int] is Some,
        ensures
            layout_ok(final(self).hopmap@, final(self).tags@, final(self).buckets@, final(self).max_root_mask),
            old(self).buckets@[index as int] == Some(e),
            final(self).buckets@ == old(self).buckets@.update(index as int, None),
            final(self).overflow == old(self).overflow,
            final(self).populated == old(self).populated,
            final(self).max_pop == old(self).max_pop,
            final(self).max_root_mask == old(self).max_root_mask,
    {
        proof {
            lemma_unplace(self.hopmap@, self.tags@, self.buckets@, self.max_root_mask, index as int);
        }
        let e = self.buckets[index].take();
        match e {
            Some(e) => {
                let root = self.hopmap_index(e.0);
                let offset = index - root * LANES;
                let n_index = offset / LANES;
                let k = root * 16 + n_index;
                let count = self.hopmap[k];
                self.hopmap.set(k, count - 1);
                self.tags.set(index, EMPTY);
                e
            },
            None => vstd::pervasive::unreached(),
        }
    }

    /// Searches the 16 slots starting at `base` for an entry with this tag
    /// and hash that satisfies `eq`.
    fn search_tags<E: Fn(&V) -> bool>(&self, eq: &E, tag: u8, hash: u64, base: usize) -> (r: Option<usize>)
        requires
            self.wf(),
            base + LANES <= self.buckets@.len(),
            tag == spec_hashtag(hash),
            forall|v: &V| eq.requires((v,)),
        ensures
            match r {
                Some(i) => {
                    &&& base <= i < base + LANES
                    &&& self.buckets@[i as int] is Some
                    &&& (self.buckets@[i as int]->0).0 == hash
                    &&& eq.ensures((&(self.buckets@[i as int]->0).1,), true)
                },
                None => forall|j: int|
                    base <= j < base + LANES && #[trigger] self.buckets@[j] is Some && (
                    self.buckets@[j]->0).0 == hash ==> eq.ensures((&(self.buckets@[j]->0).1,), false),
            },
    {
        let mut j: usize = 0;
        while j < LANES
            invariant
                self.wf(),
                base + LANES <= self.buckets@.len(),
                tag == spec_hashtag(hash),
                forall|v: &V| eq.requires((v,)),
                j <= LANES,
                forall|i: int|
                    base <= i < base + j && #[trigger] self.buckets@[i] is Some && (
                    self.buckets@[i]->0).0 == hash ==> eq.ensures((&(self.buckets@[i]->0).1,), false),
            decreases LANES - j,
        {
            let slot = base + j;
            proof {
                assert(slot_ok_at(self.tags@, self.buckets@, self.max_root_mask, slot as int));
            }
            if self.tags[slot] == tag {
                match &self.buckets[slot] {
                    Some(e) => {
                        if e.0 == hash && eq(&e.1) {
                            return Some(slot);
                        }
                    },
                    None => {},
                }
            }
            j = j + 1;
        }
        None
    }

    /// Searches the neighborhood of root `bucket` for an entry with this hash
    /// that satisfies `eq`: the root bucket itself first, then every neighbor
    /// bucket that holds entries of this root.
    fn search_neighborhood<E: Fn(&V) -> bool>(&self, hash: u64, bucket: usize, eq: &E) -> (r: Option<usize>)
        requires
            self.wf(),
            self.max_root_mask != usize::MAX,
            bucket == spec_root(hash, self.max_root_mask),
            forall|v: &V| eq.requires((v,)),
        ensures
            match r {
                Some(i) => {
                    &&& i < self.buckets@.len()
                    &&& self.buckets@[i as int] is Some
                    &&& (self.buckets@[i as int]->0).0 == hash
                    &&& eq.ensures((&(self.buckets@[i as int]->0).1,), true)
                    &&& bucket * LANES <= i < (bucket + HOP_RANGE) * LANES
                },
                None => forall|j: int|
                    0 <= j < self.buckets@.len() && #[trigger] self.buckets@[j] is Some && (
                    self.buckets@[j]->0).0 == hash ==> eq.ensures((&(self.buckets@[j]->0).1,), false),
            },
    {
        proof {
            lemma_root_bound(hash, self.max_root_mask);
        }
        let tag = hashtag(hash);
        let base = bucket * LANES;
        if let Some(value) = self.search_tags(eq, tag, hash, base) {
            return Some(value);
        }
        let mut index: usize = 1;
        while index < HOP_RANGE
            invariant
                self.wf(),
                self.max_root_mask != usize::MAX,
                bucket == spec_root(hash, self.max_root_mask),
                bucket <= self.max_root_mask,
                tag == spec_hashtag(hash),
                forall|v: &V| eq.requires((v,)),
                1 <= index <= HOP_RANGE,
                forall|i: int|
                    bucket * 16 <= i < (bucket + index) * 16 && #[trigger] self.buckets@[i] is Some && (
                    self.buckets@[i]->0).0 == hash ==> eq.ensures((&(self.buckets@[i]->0).1,), false),
            decreases HOP_RANGE - index,
        {
            let occupied = self.hopmap[bucket * 16 + index];
            if occupied > 0 {
                let base = bucket * LANES + index * LANES;
                if let Some(value) = self.search_tags(eq, tag, hash, base) {
                    return Some(value);
                }
            } else {
                proof {
                    assert(hop_ok_at(self.hopmap@, self.buckets@, self.max_root_mask, bucket as int, index as int));
                    assert forall|i: int|
                        (bucket + index) * 16 <= i < (bucket + index + 1) * 16 && #[trigger] self.buckets@[i] is Some && (
                        self.buckets@[i]->0).0 == hash implies false by {
                        assert(has_root(self.buckets@[i], self.max_root_mask, bucket as int));
                        lemma_cnt_pos(
                            self.buckets@,
                            self.max_root_mask,
                            bucket as int,
                            (bucket + index) * 16,
                            (bucket + index + 1) * 16,
                            i,
                        );
                    }
                }
            }
            index = index + 1;
        }
        proof {
            assert forall|j: int|
                0 <= j < self.buckets@.len() && #[trigger] self.buckets@[j] is Some && (
                self.buckets@[j]->0).0 == hash implies eq.ensures((&(self.buckets@[j]->0).1,), false) by {
                assert(slot_ok_at(self.tags@, self.buckets@, self.max_root_mask, j));
            }
        }
        None
    }

    /// Looks through the overflow list for an entry with this hash that
    /// satisfies `eq`.
    fn search_overflow<E: Fn(&V) -> bool>(&self, hash: u64, eq: &E) -> (r: Option<usize>)
        requires
            forall|v: &V| eq.requires((v,)),
        ensures
            match r {
                Some(j) => {
                    &&& j < self.overflow@.len()
                    &&& self.overflow@[j as int].0 == hash
                    &&& eq.ensures((&self.overflow@[j as int].1,), true)
                },
                None => forall|j: int|
                    0 <= j < self.overflow@.len() && #[trigger] self.overflow@[j].0 == hash
                        ==> eq.ensures((&self.overflow@[j].1,), false),
            },
    {
        let mut idx: usize = 0;
        while idx < self.overflow.len()
            invariant
                forall|v: &V| eq.requires((v,)),
                idx <= self.overflow@.len(),
                forall|j: int|
                    0 <= j < idx && #[trigger] self.overflow@[j].0 == hash ==> eq.ensures(
                        (&self.overflow@[j].1,),
                        false,
                    ),
            decreases self.overflow@.len() - idx,
        {
            let e = &self.overflow[idx];
            if e.0 == hash && eq(&e.1) {
                return Some(idx);
            }
            idx = idx + 1;
        }
        None
    }

    /// No entry stored under `hash` satisfies `eq`, from what the searches
    /// of the slots and of the overflow list found.
    proof fn lemma_absent<E: Fn(&V) -> bool>(&self, hash: u64, eq: &E)
        requires
            self.wf(),
            forall|j: int|
                0 <= j < self.buckets@.len() && #[trigger] self.buckets@[j] is Some && (
                self.buckets@[j]->0).0 == hash ==> eq.ensures((&(self.buckets@[j]->0).1,), false),
            forall|j: int|
                0 <= j < self.overflow@.len() && #[trigger] self.overflow@[j].0 == hash ==> eq.ensures(
                    (&self.overflow@[j].1,),
                    false,
                ),
        ensures
            forall|x: V| self@.count((hash, x)) > 0 ==> eq.ensures((&x,), false),
    {
        assert forall|x: V| self@.count((hash, x)) > 0 implies eq.ensures((&x,), false) by {
            if slots_ms(self.buckets@).count((hash, x)) > 0 {
                lemma_slots_ms_member(self.buckets@, (hash, x));
                let j = choose|j: int| 0 <= j < self.buckets@.len() && self.buckets@[j] == Some((hash, x));
                assert(self.buckets@[j] is Some);
            } else {
                assert(seq_ms(self.overflow@).count((hash, x)) > 0);
                lemma_seq_ms_member(self.overflow@, (hash, x));
                let j = choose|j: int| 0 <= j < self.overflow@.len() && self.overflow@[j] == (hash, x);
                assert(self.overflow@[j].0 == hash);
            }
        }
    }

    /// Finds a value by its hash and an equality predicate.
    ///
    /// Returns a reference to a stored value that was inserted under `hash`
    /// and satisfies `eq`, or `None` if there is none.
    pub fn find<E: Fn(&V) -> bool>(&self, hash: u64, eq: E) -> (r: Option<&V>)
        requires
            self.wf(),
            forall|v: &V| eq.requires((v,)),
        ensures
            match r {
                Some(v) => self@.count((hash, *v)) > 0 && eq.ensures((v,), true),
                None => forall|x: V| self@.count((hash, x)) > 0 ==> eq.ensures((&x,), false),
            },
    {
        if self.populated == 0 {
            proof {
                self.lemma_len();
            }
            return None;
        }
        let bucket = self.hopmap_index(hash);
        if let Some(index) = self.search_neighborhood(hash, bucket, &eq) {
            proof {
                lemma_slots_ms_has(self.buckets@, index as int);
            }
            match &self.buckets[index] {
                Some(e) => return Some(&e.1),
                None => vstd::pervasive::unreached(),
            }
        }
        if self.overflow.len() == 0 {
            proof {
                self.lemma_absent(hash, &eq);
            }
            return None;
        }
        self.find_overflow(hash, eq)
    }

    /// The overflow part of [`find`](HashTable::find).
    fn find_overflow<E: Fn(&V) -> bool>(&self, hash: u64, eq: E) -> (r: Option<&V>)
        requires
            self.wf(),
            forall|v: &V| eq.requires((v,)),
            forall|j: int|
                0 <= j < self.buckets@.len() && #[trigger] self.buckets@[j] is Some && (
                self.buckets@[j]->0).0 == hash ==> eq.ensures((&(self.buckets@[j]->0).1,), false),
        ensures
            match r {
                Some(v) => self@.count((hash, *v)) > 0 && eq.ensures((v,), true),
                None => forall|x: V| self@.count((hash, x)) > 0 ==> eq.ensures((&x,), false),
            },
    {
        match self.search_overflow(hash, &eq) {
            Some(j) => {
                proof {
                    lemma_seq_ms_update(self.overflow@, j as int, self.overflow@[j as int]);
                }
                Some(&self.overflow[j].1)
            },
            None => {
                proof {
                    self.lemma_absent(hash, &eq);
                }
                None
            },
        }
    }
}

impl<V> HashTable<V> {
    /// Rewriting the value of slot `i` keeps the table well formed and swaps
    /// the entry in the contents.
    proof fn lemma_rewrite_slot(&self, i: int)
        requires
            self.wf(),
            0 <= i < self.buckets@.len(),
            self.buckets@[i] is Some,
        ensures
            forall|w: V|
                #![trigger rewritten(self.buckets@, i, w)]
                {
                    &&& layout_ok(self.hopmap@, self.tags@, rewritten(self.buckets@, i, w), self.max_root_mask)
                    &&& slots_ms(rewritten(self.buckets@, i, w)).len() == slots_ms(self.buckets@).len()
                    &&& slots_ms(rewritten(self.buckets@, i, w)).add(seq_ms(self.overflow@)) =~= self@.remove(
                        self.buckets@[i]->0,
                    ).insert(((self.buckets@[i]->0).0, w))
                },
    {
        let h = (self.buckets@[i]->0).0;
        assert forall|w: V|
            #![trigger rewritten(self.buckets@, i, w)]
            {
                &&& layout_ok(self.hopmap@, self.tags@, rewritten(self.buckets@, i, w), self.max_root_mask)
                &&& slots_ms(rewritten(self.buckets@, i, w)).len() == slots_ms(self.buckets@).len()
                &&& slots_ms(rewritten(self.buckets@, i, w)).add(seq_ms(self.overflow@)) =~= self@.remove(
                    self.buckets@[i]->0,
                ).insert((h, w))
            } by {
            lemma_set_value(self.hopmap@, self.tags@, self.buckets@, self.max_root_mask, i, w);
            lemma_slots_ms_update(self.buckets@, i, Some((h, w)));
        }
    }

    /// Rewriting the value of overflow entry `j` swaps the entry in the
    /// contents.
    proof fn lemma_rewrite_overflow(&self, j: int)
        requires
            self.wf(),
            0 <= j < self.overflow@.len(),
        ensures
            forall|w: V|
                #![trigger self.overflow@.update(j, (self.overflow@[j].0, w))]
                slots_ms(self.buckets@).add(seq_ms(self.overflow@.update(j, (self.overflow@[j].0, w))))
                    =~= self@.remove(self.overflow@[j]).insert((self.overflow@[j].0, w)),
            seq_ms(self.overflow@).count(self.overflow@[j]) > 0,
    {
        let e = self.overflow@[j];
        lemma_seq_ms_update(self.overflow@, j, e);
        assert forall|w: V|
            #![trigger self.overflow@.update(j, (e.0, w))]
            slots_ms(self.buckets@).add(seq_ms(self.overflow@.update(j, (e.0, w)))) =~= self@.remove(
                e,
            ).insert((e.0, w)) by {
            lemma_seq_ms_update(self.overflow@, j, (e.0, w));
        }
    }

    /// A mutable reference to the value of the occupied slot `index`.
    fn slot_value_mut(&mut self, index: usize) -> (r: &mut V)
        requires
            index < old(self).buckets@.len(),
            old(self).buckets@[index as int] is Some,
        ensures
            *r == (old(self).buckets@[index as int]->0).1,
            final(self).buckets@ == rewritten(old(self).buckets@, index as int, *final(r)),
            final(self).hopmap == old(self).hopmap,
            final(self).tags == old(self).tags,
            final(self).overflow == old(self).overflow,
            final(self).populated == old(self).populated,
            final(self).max_pop == old(self).max_pop,
            final(self).max_root_mask == old(self).max_root_mask,
    {
        match &mut self.buckets[index] {
            Some(e) => &mut e.1,
            None => vstd::pervasive::unreached(),
        }
    }

    /// A mutable reference to the value at a valid occupied position; what is
    /// written through it replaces that value and keeps its hash.
    pub(crate) fn entry_value_mut(&mut self, root: usize, n: usize, overflow: Option<usize>) -> (r: &mut V)
        requires
            old(self).wf(),
            old(self).occupied_ok(root, n, overflow),
        ensures
            *r == old(self).entry_at(root, n, overflow).1,
            final(self).wf(),
            final(self).occupied_ok(root, n, overflow),
            final(self).entry_at(root, n, overflow) == (old(self).entry_at(root, n, overflow).0, *final(r)),
            final(self)@ =~= old(self)@.remove(old(self).entry_at(root, n, overflow)).insert(
                (old(self).entry_at(root, n, overflow).0, *final(r)),
            ),
            final(self).spec_capacity() == old(self).spec_capacity(),
            final(self).spec_slots() == old(self).spec_slots(),
            final(self).overflow_count() == old(self).overflow_count(),
    {
        match overflow {
            Some(j) => {
                proof {
                    self.lemma_rewrite_overflow(j as int);
                }
                let e = &mut self.overflow[j];
                &mut e.1
            },
            None => {
                proof {
                    self.lemma_rewrite_slot((root * 16 + n) as int);
                }
                self.slot_value_mut(root * LANES + n)
            },
        }
    }

    /// Finds a value by its hash and an equality predicate and returns a
    /// mutable reference to it, so it can be changed in place.
    pub fn find_mut<E: Fn(&V) -> bool>(&mut self, hash: u64, eq: E) -> (r: Option<&mut V>)
        requires
            old(self).wf(),
            forall|v: &V| eq.requires((v,)),
        ensures
            final(self).wf(),
            final(self).spec_capacity() == old(self).spec_capacity(),
            final(self).spec_slots() == old(self).spec_slots(),
            match r {
                Some(v) => {
                    &&& old(self)@.count((hash, *v)) > 0
                    &&& eq.ensures((&*v,), true)
                    &&& final(self)@ =~= old(self)@.remove((hash, *v)).insert((hash, *final(v)))
                },
                None => {
                    &&& forall|x: V| old(self)@.count((hash, x)) > 0 ==> eq.ensures((&x,), false)
                    &&& *final(self) == *old(self)
                },
            },
    {
        if self.populated == 0 {
            proof {
                self.lemma_len();
            }
            return None;
        }
        let bucket = self.hopmap_index(hash);
        let found = self.search_neighborhood(hash, bucket, &eq);
        if let Some(index) = found {
            proof {
                lemma_slots_ms_has(self.buckets@, index as int);
                self.lemma_rewrite_slot(index as int);
            }
            Some(self.slot_value_mut(index))
        } else if self.overflow.len() == 0 {
            proof {
                self.lemma_absent(hash, &eq);
            }
            None
        } else {
            match self.search_overflow(hash, &eq) {
                Some(j) => {
                    proof {
                        self.lemma_rewrite_overflow(j as int);
                    }
                    let e = &mut self.overflow[j];
                    Some(&mut e.1)
                },
                None => {
                    proof {
                        self.lemma_absent(hash, &eq);
                    }
                    None
                },
            }
        }
    }

    /// Removes and returns a value identified by its hash and an equality
    /// predicate, or returns `None` if there is none.
    pub fn remove<E: Fn(&V) -> bool>(&mut self, hash: u64, eq: E) -> (r: Option<V>)
        requires
            old(self).wf(),
            forall|v: &V| eq.requires((v,)),
        ensures
            final(self).wf(),
            final(self).spec_capacity() == old(self).spec_capacity(),
            final(self).spec_slots() == old(self).spec_slots(),
            match r {
                Some(v) => {
                    &&& old(self)@.count((hash, v)) > 0
                    &&& eq.ensures((&v,), true)
                    &&& final(self)@ =~= old(self)@.remove((hash, v))
                },
                None => {
                    &&& forall|x: V| old(self)@.count((hash, x)) > 0 ==> eq.ensures((&x,), false)
                    &&& final(self)@ == old(self)@
                },
            },
    {
        if self.populated == 0 {
            proof {
                self.lemma_len();
            }
            return None;
        }
        let hop_bucket = self.hopmap_index(hash);
        let index = self.search_neighborhood(hash, hop_bucket, &eq);
        if let Some(index) = index {
            proof {
                lemma_slots_ms_update(self.buckets@, index as int, None);
                lemma_slots_ms_len(self.buckets@.update(index as int, None));
            }
            self.populated = self.populated - 1;
            let entry = self.take_slot(index);
            return Some(entry.1);
        }
        if self.overflow.len() == 0 {
            proof {
                self.lemma_absent(hash, &eq);
            }
            return None;
        }
        match self.search_overflow(hash, &eq) {
            Some(idx) => {
                proof {
                    lemma_seq_ms_swap_remove(self.overflow@, idx as int);
                    lemma_seq_ms_update(self.overflow@, idx as int, self.overflow@[idx as int]);
                }
                self.populated = self.populated - 1;
                let entry = self.overflow.swap_remove(idx);
                Some(entry.1)
            },
            None => {
                proof {
                    self.lemma_absent(hash, &eq);
                }
                None
            },
        }
    }
}

impl<V> HashTable<V> {
    /// Every place that can hold an entry: the slots, then the overflow
    /// list.
    pub closed spec fn places(&self) -> Seq<Option<(u64, V)>> {
        self.buckets@.add(some_all(self.overflow@))
    }

    /// The number of slots.
    pub closed spec fn num_slots(&self) -> nat {
        self.buckets@.len()
    }

    /// The places hold exactly the table's entries, the slots first.
    pub proof fn lemma_places(&self)
        ensures
            self@ =~= slots_ms(self.places()),
            self.places().len() >= self.num_slots(),
            forall|t: int| self.num_slots() <= t < self.places().len() ==> (#[trigger] self.places()[t]) is Some,
    {
        lemma_slots_ms_add(self.buckets@, some_all(self.overflow@));
        lemma_slots_ms_some(self.overflow@);
    }

    /// The root bucket that `hash` selects in this table.
    pub closed spec fn root_of(&self, hash: u64) -> int {
        spec_root(hash, self.max_root_mask)
    }

    /// The number of entries of root bucket `r` held in bucket `r + n`.
    pub closed spec fn neighbor_count(&self, r: int, n: int) -> int {
        self.hopmap@[r * 16 + n] as int
    }

    /// The hopscotch invariant: an entry held in a slot lies within
    /// `HOP_RANGE` buckets of the root bucket that its hash selects, that
    /// root is one of the table's, and each neighbor counter of a root counts
    /// the root's entries in that bucket, at most `LANES` of them.
    pub proof fn lemma_neighborhood(&self)
        requires
            self.wf(),
        ensures
            forall|i: int| 0 <= i < self.num_slots() && (#[trigger] self.places()[i]) is Some ==> {
                let r = self.root_of((self.places()[i]->0).0);
                &&& r * LANES <= i < (r + HOP_RANGE) * LANES
                &&& self.num_slots() >= (r + 1 + HOP_RANGE) * LANES
            },
            forall|r: int, n: int| #![trigger self.neighbor_count(r, n)]
                0 <= r && (r + 1 + HOP_RANGE) * LANES <= self.num_slots() && 0 <= n < HOP_RANGE ==> {
                    &&& 0 <= self.neighbor_count(r, n) <= LANES
                    &&& (self.neighbor_count(r, n) == 0 <==> forall|j: int|
                        (r + n) * LANES <= j < (r + n + 1) * LANES ==> !((#[trigger] self.places()[j]) is Some
                            && self.root_of((self.places()[j]->0).0) == r))
                },
    {
        assert forall|i: int| 0 <= i < self.num_slots() && (#[trigger] self.places()[i]) is Some implies {
            let r = self.root_of((self.places()[i]->0).0);
            &&& r * LANES <= i < (r + HOP_RANGE) * LANES
            &&& self.num_slots() >= (r + 1 + HOP_RANGE) * LANES
        } by {
            assert(self.places()[i] == self.buckets@[i]);
            assert(slot_ok_at(self.tags@, self.buckets@, self.max_root_mask, i));
            lemma_root_bound((self.buckets@[i]->0).0, self.max_root_mask);
        }
        assert forall|r: int, n: int| #![trigger self.neighbor_count(r, n)]
            0 <= r && (r + 1 + HOP_RANGE) * LANES <= self.num_slots() && 0 <= n < HOP_RANGE implies {
                &&& 0 <= self.neighbor_count(r, n) <= LANES
                &&& (self.neighbor_count(r, n) == 0 <==> forall|j: int|
                    (r + n) * LANES <= j < (r + n + 1) * LANES ==> !((#[trigger] self.places()[j]) is Some
                        && self.root_of((self.places()[j]->0).0) == r))
            } by {
            let lo = (r + n) * 16;
            let hi = (r + n + 1) * 16;
            let m = self.max_root_mask;
            assert(roots_of(m) * 16 == self.hopmap@.len());
            assert(r < roots_of(m));
            assert(hop_ok_at(self.hopmap@, self.buckets@, m, r, n));
            crate::slot_model::lemma_cnt_bound(self.buckets@, m, r, lo, hi);
            assert forall|j: int| lo <= j < hi implies self.places()[j] == self.buckets@[j] by {}
            if self.neighbor_count(r, n) == 0 {
                assert forall|j: int| lo <= j < hi implies !((#[trigger] self.places()[j]) is Some
                    && self.root_of((self.places()[j]->0).0) == r) by {
                    if has_root(self.buckets@[j], m, r) {
                        lemma_cnt_pos(self.buckets@, m, r, lo, hi, j);
                    }
                }
            } else {
                if forall|j: int| lo <= j < hi ==> !((#[trigger] self.places()[j]) is Some
                    && self.root_of((self.places()[j]->0).0) == r) {
                    assert forall|j: int| lo <= j < hi implies !has_root(#[trigger] self.buckets@[j], m, r) by {
                        assert(self.places()[j] == self.buckets@[j]);
                    }
                    crate::slot_model::lemma_cnt_zero(self.buckets@, m, r, lo, hi);
                }
            }
        }
    }

    /// The number of slots.
    pub fn slot_count(&self) -> (r: usize)
        ensures
            r == self.num_slots(),
    {
        self.buckets.len()
    }

    /// The number of occupied slots: the entries that are not in the
    /// overflow list.
    pub fn occupied_slots(&self) -> (r: usize)
        requires
            self.wf(),
        ensures
            r + (self.places().len() - self.num_slots()) == self@.len(),
            r <= self.num_slots(),
    {
        let n = self.buckets.len();
        let mut count: usize = 0;
        let mut i: usize = 0;
        proof {
            assert(self.buckets@.take(0) =~= Seq::<Option<(u64, V)>>::empty());
        }
        while i < n
            invariant
                n == self.buckets@.len(),
                i <= n,
                count == slots_ms(self.buckets@.take(i as int)).len(),
                count <= i,
            decreases n - i,
        {
            proof {
                assert(self.buckets@.take(i + 1).drop_last() =~= self.buckets@.take(i as int));
            }
            if self.buckets[i].is_some() {
                count = count + 1;
            }
            i = i + 1;
        }
        proof {
            assert(self.buckets@.take(n as int) =~= self.buckets@);
            self.lemma_len();
            lemma_seq_ms_len(self.overflow@);
        }
        count
    }

    /// The tag of each slot: `EMPTY` for an empty slot, else the tag of its
    /// entry's hash.
    pub closed spec fn spec_tags(&self) -> Seq<u8> {
        self.tags@
    }

    /// A slot's tag is `EMPTY` exactly when it holds no entry, and otherwise
    /// the tag of its entry's hash.
    pub proof fn lemma_tags(&self)
        requires
            self.wf(),
        ensures
            self.spec_tags().len() == self.num_slots(),
            forall|i: int|
                0 <= i < self.num_slots() ==> ((#[trigger] self.spec_tags()[i] == EMPTY) <==> self.places()[i] is None),
            forall|i: int|
                0 <= i < self.num_slots() && self.places()[i] is Some ==> #[trigger] self.spec_tags()[i]
                    == spec_hashtag((self.places()[i]->0).0),
    {
        assert forall|i: int| 0 <= i < self.num_slots() implies ((#[trigger] self.spec_tags()[i] == EMPTY)
            <==> self.places()[i] is None) && (self.places()[i] is Some ==> self.spec_tags()[i] == spec_hashtag(
            (self.places()[i]->0).0,
        )) by {
            assert(slot_ok_at(self.tags@, self.buckets@, self.max_root_mask, i));
            assert(self.places()[i] == self.buckets@[i]);
        }
    }

    /// The tags of the slots, in order.
    pub fn slot_tags(&self) -> (r: Vec<u8>)
        ensures
            r@ == self.spec_tags(),
    {
        self.tags.clone()
    }

    /// The neighbor counters of the root buckets: sixteen per root, counter
    /// `n` of root `r` at `r * 16 + n`.
    pub fn neighbor_counts(&self) -> (r: Vec<u8>)
        requires
            self.wf(),
        ensures
            r@.len() == self.num_roots() * 16,
            forall|root: int, n: int|
                0 <= root < self.num_roots() && 0 <= n < 16 ==> #[trigger] r@[root * 16 + n] == self.neighbor_count(
                    root,
                    n,
                ),
    {
        self.hopmap.clone()
    }

    /// The number of overflow entries.
    pub fn overflow_len(&self) -> (r: usize)
        ensures
            r == self.places().len() - self.num_slots(),
    {
        self.overflow.len()
    }

    /// The value held by slot `i`, if any.
    pub(crate) fn slot_ref(&self, i: usize) -> (r: Option<&V>)
        requires
            i < self.num_slots(),
        ensures
            match r {
                Some(v) => self.places()[i as int] is Some && *v == (self.places()[i as int]->0).1,
                None => self.places()[i as int] is None,
            },
    {
        match &self.buckets[i] {
            Some(e) => Some(&e.1),
            None => None,
        }
    }

    /// The value of overflow entry `j`.
    pub(crate) fn overflow_ref(&self, j: usize) -> (r: &V)
        requires
            self.num_slots() + j < self.places().len(),
        ensures
            self.places()[self.num_slots() + j] is Some,
            *r == (self.places()[self.num_slots() + j]->0).1,
    {
        &self.overflow[j].1
    }

    /// A mutable reference to the value of the occupied slot `i`; what is
    /// written through it replaces that value and keeps its hash.
    pub(crate) fn slot_mut(&mut self, i: usize) -> (r: &mut V)
        requires
            old(self).wf(),
            i < old(self).num_slots(),
            old(self).places()[i as int] is Some,
        ensures
            *r == (old(self).places()[i as int]->0).1,
            final(self).wf(),
            final(self).num_slots() == old(self).num_slots(),
            final(self).places() == old(self).places().update(
                i as int,
                Some(((old(self).places()[i as int]->0).0, *final(r))),
            ),
            final(self).spec_capacity() == old(self).spec_capacity(),
            final(self).spec_slots() == old(self).spec_slots(),
    {
        let ghost b0 = self.buckets@;
        let ghost o0 = self.overflow@;
        proof {
            self.lemma_rewrite_slot(i as int);
            assert forall|w: V| #![trigger rewritten(b0, i as int, w)]
                rewritten(b0, i as int, w).add(some_all(o0)) =~= b0.add(some_all(o0)).update(
                    i as int,
                    Some(((b0[i as int]->0).0, w)),
                ) by {}
        }
        self.slot_value_mut(i)
    }

    /// A mutable reference to the value of overflow entry `j`; what is
    /// written through it replaces that value and keeps its hash.
    pub(crate) fn overflow_mut(&mut self, j: usize) -> (r: &mut V)
        requires
            old(self).wf(),
            old(self).num_slots() + j < old(self).places().len(),
        ensures
            old(self).places()[old(self).num_slots() + j] is Some,
            *r == (old(self).places()[old(self).num_slots() + j]->0).1,
            final(self).wf(),
            final(self).num_slots() == old(self).num_slots(),
            final(self).places() == old(self).places().update(
                old(self).num_slots() + j,
                Some(((old(self).places()[old(self).num_slots() + j]->0).0, *final(r))),
            ),
            final(self).spec_capacity() == old(self).spec_capacity(),
            final(self).spec_slots() == old(self).spec_slots(),
    {
        let ghost b0 = self.buckets@;
        let ghost o0 = self.overflow@;
        proof {
            self.lemma_rewrite_overflow(j as int);
            lemma_seq_ms_len(o0);
            assert forall|w: V| #![trigger o0.update(j as int, (o0[j as int].0, w))]
                b0.add(some_all(o0.update(j as int, (o0[j as int].0, w)))) =~= b0.add(some_all(o0)).update(
                    b0.len() + j,
                    Some((o0[j as int].0, w)),
                ) && seq_ms(o0.update(j as int, (o0[j as int].0, w))).len() == o0.len() by {
                lemma_seq_ms_len(o0.update(j as int, (o0[j as int].0, w)));
            }
        }
        let e = &mut self.overflow[j];
        &mut e.1
    }

    /// The slots and the overflow entries, for writing values in place.
    /// Once the two borrows end, the table holds what they hold; it stays
    /// well formed when every slot keeps its hash (or stays empty) and the
    /// overflow list keeps its length.
    pub(crate) fn storage_mut(&mut self) -> (r: (&mut [Option<(u64, V)>], &mut [(u64, V)]))
        requires
            old(self).wf(),
        ensures
            slot_values(r.0@).add(entry_values(r.1@)) == old(self).values(),
            r.0@.add(some_all(r.1@)) == old(self).places(),
            r.0@.len() == old(self).num_slots(),
            same_hashes(r.0@, final(r.0)@) && final(r.1)@.len() == r.1@.len() ==> {
                &&& final(self).wf()
                &&& final(self).places() == final(r.0)@.add(some_all(final(r.1)@))
                &&& final(self).num_slots() == old(self).num_slots()
                &&& final(self).spec_capacity() == old(self).spec_capacity()
            },
    {
        let ghost t0 = *self;
        let r = (self.buckets.as_mut_slice(), self.overflow.as_mut_slice());
        proof {
            assert forall|fb: Seq<Option<(u64, V)>>| #[trigger] same_hashes(t0.buckets@, fb) implies layout_ok(
                t0.hopmap@,
                t0.tags@,
                fb,
                t0.max_root_mask,
            ) && slots_ms(fb).len() == slots_ms(t0.buckets@).len() by {
                lemma_layout_same_hashes(t0.hopmap@, t0.tags@, t0.buckets@, fb, t0.max_root_mask);
                crate::slot_model::lemma_slots_ms_len_same(t0.buckets@, fb);
            }
        }
        r
    }

    /// Empties every place whose flag is clear, the slots by `keep_slots` and
    /// the overflow entries by `keep_overflow`, and returns the entries taken
    /// out.
    pub(crate) fn retain_places(&mut self, keep_slots: &Vec<bool>, keep_overflow: &Vec<bool>) -> (removed: Vec<(u64, V)>)
        requires
            old(self).wf(),
            keep_slots@.len() == old(self).num_slots(),
            keep_overflow@.len() == old(self).places().len() - old(self).num_slots(),
        ensures
            final(self).wf(),
            final(self)@ =~= kept(old(self).places(), keep_slots@.add(keep_overflow@)),
            seq_ms(removed@) =~= dropped(old(self).places(), keep_slots@.add(keep_overflow@)),
            final(self).spec_capacity() == old(self).spec_capacity(),
            final(self).spec_slots() == old(self).spec_slots(),
    {
        let ghost b0 = self.buckets@;
        let ghost o0 = self.overflow@;
        let ghost ks = keep_slots@;
        let ghost ko = keep_overflow@;
        let ghost pop0 = self.populated;
        let n = self.buckets.len();
        let mut removed: Vec<(u64, V)> = Vec::new();
        let mut i: usize = 0;
        proof {
            assert(b0.take(0) =~= Seq::<Option<(u64, V)>>::empty());
        }
        while i < n
            invariant
                n == b0.len(),
                n == ks.len(),
                ks == keep_slots@,
                self.buckets@.len() == n,
                i <= n,
                layout_ok(self.hopmap@, self.tags@, self.buckets@, self.max_root_mask),
                self.max_pop == old(self).max_pop,
                self.max_root_mask == old(self).max_root_mask,
                self.overflow@ == o0,
                self.populated == slots_ms(self.buckets@).len() + self.overflow@.len(),
                self.populated <= pop0,
                forall|j: int| 0 <= j < i ==> self.buckets@[j] == (if ks[j] { b0[j] } else { None }),
                forall|j: int| i <= j < n ==> self.buckets@[j] == b0[j],
                slots_ms(self.buckets@.take(i as int)) == kept(b0.take(i as int), ks),
                seq_ms(removed@) == dropped(b0.take(i as int), ks),
            decreases n - i,
        {
            let ghost bb = self.buckets@;
            proof {
                assert(b0.take(i + 1).drop_last() =~= b0.take(i as int));
                assert(b0.take(i + 1).last() == b0[i as int]);
                assert(ks.take(i as int) =~= ks.take(b0.take(i as int).len() as int));
                crate::slot_model::lemma_kept_take(b0.take(i as int), ks);
                crate::slot_model::lemma_kept_take(b0.take(i + 1), ks);
                assert(ks.take(i + 1).take(i as int) =~= ks.take(i as int));
            }
            if !keep_slots[i] && self.buckets[i].is_some() {
                proof {
                    lemma_slots_ms_update(bb, i as int, None);
                    lemma_slots_ms_len(bb.update(i as int, None));
                }
                let e = self.take_slot(i);
                self.populated = self.populated - 1;
                proof {
                    lemma_seq_ms_push(removed@, e);
                }
                removed.push(e);
            }
            proof {
                assert(self.buckets@.take(i + 1).drop_last() =~= self.buckets@.take(i as int)) by {
                    assert forall|j: int| 0 <= j < i implies self.buckets@[j] == bb[j] by {}
                }
                assert(self.buckets@.take(i as int) =~= bb.take(i as int));
                assert(self.buckets@.take(i + 1).last() == (if ks[i as int] { b0[i as int] } else { None }));
            }
            i = i + 1;
        }
        proof {
            assert(self.buckets@.take(n as int) =~= self.buckets@);
            assert(b0.take(n as int) =~= b0);
        }
        let mut rest: Vec<(u64, V)> = Vec::new();
        core::mem::swap(&mut rest, &mut self.overflow);
        let ghost so = some_all(o0);
        let ghost len = o0.len();
        proof {
            assert(so.subrange(len as int, len as int) =~= Seq::<Option<(u64, V)>>::empty());
            assert(ko.subrange(len as int, len as int) =~= Seq::<bool>::empty());
            assert(rest@ =~= o0.take(len as int));
        }
        while rest.len() > 0
            invariant
                ko == keep_overflow@,
                ko.len() == len,
                so == some_all(o0),
                len == o0.len(),
                rest@.len() <= len,
                rest@ =~= o0.take(rest@.len() as int),
                layout_ok(self.hopmap@, self.tags@, self.buckets@, self.max_root_mask),
                self.max_pop == old(self).max_pop,
                self.max_root_mask == old(self).max_root_mask,
                slots_ms(self.buckets@) == kept(b0, ks),
                self.populated == slots_ms(self.buckets@).len() + self.overflow@.len() + rest@.len(),
                self.populated <= pop0,
                seq_ms(self.overflow@) == kept(so.subrange(rest@.len() as int, len as int), ko.subrange(rest@.len() as int, len as int)),
                seq_ms(removed@) == dropped(b0, ks).add(
                    dropped(so.subrange(rest@.len() as int, len as int), ko.subrange(rest@.len() as int, len as int)),
                ),
            decreases rest@.len(),
        {
            let m = rest.len() - 1;
            let ghost s1 = so.subrange(m as int, m + 1);
            let ghost k1 = ko.subrange(m as int, m + 1);
            let ghost s2 = so.subrange(m + 1, len as int);
            let ghost k2 = ko.subrange(m + 1, len as int);
            proof {
                lemma_kept_add(s1, k1, s2, k2);
                assert(s1.add(s2) =~= so.subrange(m as int, len as int));
                assert(k1.add(k2) =~= ko.subrange(m as int, len as int));
                assert(s1.drop_last() =~= Seq::<Option<(u64, V)>>::empty());
                assert(k1.take(0) =~= Seq::<bool>::empty());
                assert(s1.last() == Some(o0[m as int]));
                assert(k1[0] == ko[m as int]);
                assert(s1.len() == 1);
                assert(s1.drop_last().len() == 0);
                assert(kept(s1.drop_last(), k1.take(0)) == Multiset::<(u64, V)>::empty());
                assert(dropped(s1.drop_last(), k1.take(0)) == Multiset::<(u64, V)>::empty());
                assert(opt_ms(s1.last()) =~= Multiset::singleton(o0[m as int]));
                assert(kept(s1, k1) =~= if ko[m as int] { Multiset::singleton(o0[m as int]) } else { Multiset::empty() });
                assert(dropped(s1, k1) =~= if ko[m as int] { Multiset::empty() } else { Multiset::singleton(o0[m as int]) });
                assert(rest@.last() == o0[m as int]);
            }
            let e = match rest.pop() {
                Some(e) => e,
                None => vstd::pervasive::unreached(),
            };
            if keep_overflow[m] {
                proof {
                    lemma_seq_ms_push(self.overflow@, e);
                }
                self.overflow.push(e);
            } else {
                self.populated = self.populated - 1;
                proof {
                    lemma_seq_ms_push(removed@, e);
                }
                removed.push(e);
            }
        }
        proof {
            assert(so.subrange(0, len as int) =~= so);
            assert(ko.subrange(0, len as int) =~= ko);
            lemma_kept_add(b0, ks, so, ko);
            lemma_slots_ms_add(b0, so);
            lemma_slots_ms_some(o0);
            lemma_seq_ms_len(self.overflow@);
            self.lemma_len();
            if self.max_root_mask == usize::MAX {
                assert(pop0 == 0);
            }
        }
        removed
    }
}

/// Histograms of the probe lengths of a table and of where its entries sit
/// relative to their root buckets.
pub struct ProbeHistogram {
    populated: usize,
    buckets: usize,
    /// Entry `L - 1` counts, over the root buckets whose entries occupy `L`
    /// neighbor buckets, the occupied neighbor buckets: `L` per such root.
    pub probe_length_by_bucket: [usize; 16],
    /// Entry `L - 1` counts the entries of the root buckets whose entries
    /// occupy `L` neighbor buckets: the work of looking them all up. The
    /// last entry is the number of overflow entries.
    pub probe_length_by_count: [usize; 17],
    /// Entry `n` counts the entries stored `n` buckets after their root
    /// bucket.
    pub bucket_distribution: [usize; 16],
}

/// The width, in eighths of a character, of the longest bar of a printed
/// histogram: sixty characters.
pub const BAR_EIGHTHS: usize = 480;

impl ProbeHistogram {
    /// The largest count of the histogram, over its three tables, or zero
    /// when every count is zero.
    pub fn max_count(&self) -> (m: usize)
        ensures
            forall|i: int| 0 <= i < 16 ==> self.by_bucket()[i] <= m,
            forall|i: int| 0 <= i < 17 ==> self.by_count()[i] <= m,
            forall|i: int| 0 <= i < 16 ==> self.distribution()[i] <= m,
            m == 0 || (exists|i: int| 0 <= i < 16 && self.by_bucket()[i] == m) || (exists|i: int|
                0 <= i < 17 && self.by_count()[i] == m) || (exists|i: int|
                0 <= i < 16 && self.distribution()[i] == m),
    {
        let mut m: usize = 0;
        let mut i: usize = 0;
        while i < 16
            invariant
                i <= 16,
                forall|j: int| 0 <= j < i ==> self.by_bucket()[j] <= m,
                m == 0 || exists|j: int| 0 <= j < i && self.by_bucket()[j] == m,
            decreases 16 - i,
        {
            if self.probe_length_by_bucket[i] > m {
                m = self.probe_length_by_bucket[i];
                assert(self.by_bucket()[i as int] == m);
            }
            i = i + 1;
        }
        let mut i: usize = 0;
        while i < 17
            invariant
                i <= 17,
                forall|j: int| 0 <= j < 16 ==> self.by_bucket()[j] <= m,
                forall|j: int| 0 <= j < i ==> self.by_count()[j] <= m,
                m == 0 || (exists|j: int| 0 <= j < 16 && self.by_bucket()[j] == m) || (exists|j: int|
                    0 <= j < i && self.by_count()[j] == m),
            decreases 17 - i,
        {
            if self.probe_length_by_count[i] > m {
                m = self.probe_length_by_count[i];
                assert(self.by_count()[i as int] == m);
            }
            i = i + 1;
        }
        let mut i: usize = 0;
        while i < 16
            invariant
                i <= 16,
                forall|j: int| 0 <= j < 16 ==> self.by_bucket()[j] <= m,
                forall|j: int| 0 <= j < 17 ==> self.by_count()[j] <= m,
                forall|j: int| 0 <= j < i ==> self.distribution()[j] <= m,
                m == 0 || (exists|j: int| 0 <= j < 16 && self.by_bucket()[j] == m) || (exists|j: int|
                    0 <= j < 17 && self.by_count()[j] == m) || (exists|j: int|
                    0 <= j < i && self.distribution()[j] == m),
            decreases 16 - i,
        {
            if self.bucket_distribution[i] > m {
                m = self.bucket_distribution[i];
                assert(self.distribution()[i as int] == m);
            }
            i = i + 1;
        }
        m
    }

    /// The length, in eighths of a character, of the bar drawn for `count`
    /// when `max` fills the longest bar: `count / max` of `BAR_EIGHTHS`,
    /// rounded up; no bar for a zero count or a zero maximum.
    pub fn bar_eighths(count: usize, max: usize) -> (u: usize)
        requires
            count <= max,
        ensures
            count == 0 || max == 0 ==> u == 0,
            count > 0 && max > 0 ==> u == (count * BAR_EIGHTHS + max - 1) / (max as int),
            u <= BAR_EIGHTHS,
    {
        if count == 0 || max == 0 {
            return 0;
        }
        let c: u128 = count as u128;
        let m: u128 = max as u128;
        let units: u128 = (c * 480 + (m - 1)) / m;
        assert(units <= 480) by (nonlinear_arith)
            requires
                units == (c * 480 + (m - 1)) / (m as int),
                0 < c <= m,
        {
            assert(c * 480 + (m - 1) < 481 * m);
        }
        units as usize
    }

    /// The number of entries of the table the histogram describes.
    pub fn populated(&self) -> (r: usize)
        ensures
            r == self.spec_populated(),
    {
        self.populated
    }

    /// The number of buckets of the table the histogram describes: its root
    /// buckets and the `HOP_RANGE` buckets of padding.
    pub fn buckets(&self) -> (r: usize)
        ensures
            r == self.spec_buckets(),
    {
        self.buckets
    }

    /// The number of entries of the described table.
    pub closed spec fn spec_populated(&self) -> usize {
        self.populated
    }

    /// The number of buckets of the described table.
    pub closed spec fn spec_buckets(&self) -> usize {
        self.buckets
    }

    /// The probe lengths by bucket.
    pub closed spec fn by_bucket(&self) -> Seq<usize> {
        self.probe_length_by_bucket@
    }

    /// The probe lengths by count, then the number of overflow entries.
    pub closed spec fn by_count(&self) -> Seq<usize> {
        self.probe_length_by_count@
    }

    /// The distribution of the entries over the buckets after their roots.
    pub closed spec fn distribution(&self) -> Seq<usize> {
        self.bucket_distribution@
    }

    /// The first `k` probe lengths by count, added up.
    pub open spec fn by_count_total(&self, k: int) -> int
        decreases k,
    {
        if k <= 0 {
            0
        } else {
            self.by_count_total(k - 1) + self.by_count()[k - 1]
        }
    }

    /// The first `k` counts of the distribution, added up.
    pub open spec fn distribution_total(&self, k: int) -> int
        decreases k,
    {
        if k <= 0 {
            0
        } else {
            self.distribution_total(k - 1) + self.distribution()[k - 1]
        }
    }
}

/// The histogram of a table accounts for every entry once: its probe
/// lengths by count, the overflow entries last, add up to the number of
/// entries, and its distribution adds up to the entries held in slots.
pub proof fn lemma_histogram_totals<V>(t: HashTable<V>, h: ProbeHistogram)
    requires
        t.wf(),
        h.spec_populated() == t@.len(),
        forall|l: int| 0 <= l < HOP_RANGE ==> h.by_count()[l] == #[trigger] t.hist_by_count(l, t.num_roots()),
        h.by_count()[HOP_RANGE as int] == t.places().len() - t.num_slots(),
        forall|n: int| 0 <= n < HOP_RANGE ==> h.distribution()[n] == #[trigger] t.hist_distribution(n, t.num_roots()),
    ensures
        h.by_count_total(HOP_RANGE + 1) == h.spec_populated(),
        h.distribution_total(HOP_RANGE as int) == h.spec_populated() - h.by_count()[HOP_RANGE as int],
{
    lemma_histogram_prefix(t, h, HOP_RANGE as int);
    t.lemma_count_total();
    t.lemma_distribution_total();
    assert(t.places().len() - t.num_slots() == t.overflow_count());
}

proof fn lemma_histogram_prefix<V>(t: HashTable<V>, h: ProbeHistogram, k: int)
    requires
        0 <= k <= HOP_RANGE,
        forall|l: int| 0 <= l < HOP_RANGE ==> h.by_count()[l] == #[trigger] t.hist_by_count(l, t.num_roots()),
        forall|n: int| 0 <= n < HOP_RANGE ==> h.distribution()[n] == #[trigger] t.hist_distribution(n, t.num_roots()),
    ensures
        h.by_count_total(k) == t.count_sum(k, t.num_roots()),
        h.distribution_total(k) == t.distribution_sum(k, t.num_roots()),
    decreases k,
{
    if k > 0 {
        lemma_histogram_prefix(t, h, k - 1);
        assert(h.by_count()[k - 1] == t.hist_by_count(k - 1, t.num_roots()));
        assert(h.distribution()[k - 1] == t.hist_distribution(k - 1, t.num_roots()));
    }
}

impl<V> HashTable<V> {
    /// The number of root buckets.
    pub closed spec fn num_roots(&self) -> int {
        roots_of(self.max_root_mask)
    }

    /// The number of the first `k` neighbor buckets of root `r` that hold
    /// entries of `r`.
    pub open spec fn nonzero_neighbors(&self, r: int, k: int) -> int
        decreases k,
    {
        if k <= 0 {
            0
        } else {
            self.nonzero_neighbors(r, k - 1) + if self.neighbor_count(r, k - 1) > 0 { 1int } else { 0int }
        }
    }

    /// The number of entries of root `r` in its first `k` neighbor buckets.
    pub open spec fn neighbor_total(&self, r: int, k: int) -> int
        decreases k,
    {
        if k <= 0 {
            0
        } else {
            self.neighbor_total(r, k - 1) + self.neighbor_count(r, k - 1)
        }
    }

    /// Over the first `rr` roots whose entries occupy `l + 1` neighbor
    /// buckets, the number of those buckets.
    pub open spec fn hist_by_bucket(&self, l: int, rr: int) -> int
        decreases rr,
    {
        if rr <= 0 {
            0
        } else {
            self.hist_by_bucket(l, rr - 1) + if self.nonzero_neighbors(rr - 1, HOP_RANGE as int) == l + 1 {
                l + 1
            } else {
                0
            }
        }
    }

    /// Over the first `rr` roots whose entries occupy `l + 1` neighbor
    /// buckets, the number of their entries.
    pub open spec fn hist_by_count(&self, l: int, rr: int) -> int
        decreases rr,
    {
        if rr <= 0 {
            0
        } else {
            self.hist_by_count(l, rr - 1) + if self.nonzero_neighbors(rr - 1, HOP_RANGE as int) == l + 1 {
                self.neighbor_total(rr - 1, HOP_RANGE as int)
            } else {
                0
            }
        }
    }

    /// The number of entries stored `n` buckets after their root, over the
    /// first `rr` roots.
    pub open spec fn hist_distribution(&self, n: int, rr: int) -> int
        decreases rr,
    {
        if rr <= 0 {
            0
        } else {
            self.hist_distribution(n, rr - 1) + self.neighbor_count(rr - 1, n)
        }
    }

    /// The entries of roots below `rr` in their first `k` neighbor buckets,
    /// added up over those roots.
    pub open spec fn neighbor_totals(&self, rr: int, k: int) -> int
        decreases rr,
    {
        if rr <= 0 {
            0
        } else {
            self.neighbor_totals(rr - 1, k) + self.neighbor_total(rr - 1, k)
        }
    }

    /// The first `k` counts of the distribution over the roots below `rr`,
    /// added up.
    pub open spec fn distribution_sum(&self, k: int, rr: int) -> int
        decreases k,
    {
        if k <= 0 {
            0
        } else {
            self.distribution_sum(k - 1, rr) + self.hist_distribution(k - 1, rr)
        }
    }

    proof fn lemma_totals_step(&self, rr: int, k: int)
        requires
            rr >= 0,
            k > 0,
        ensures
            self.neighbor_totals(rr, k) == self.neighbor_totals(rr, k - 1) + self.hist_distribution(k - 1, rr),
        decreases rr,
    {
        if rr > 0 {
            self.lemma_totals_step(rr - 1, k);
        }
    }

    /// Adding the distribution up by neighbor bucket and adding the roots'
    /// totals up by root count the same entries.
    proof fn lemma_distribution_exchange(&self, k: int, rr: int)
        requires
            k >= 0,
            rr >= 0,
        ensures
            self.distribution_sum(k, rr) == self.neighbor_totals(rr, k),
        decreases k,
    {
        if k > 0 {
            self.lemma_distribution_exchange(k - 1, rr);
            self.lemma_totals_step(rr, k);
        } else {
            self.lemma_totals_zero(rr);
        }
    }

    proof fn lemma_totals_zero(&self, rr: int)
        requires
            rr >= 0,
        ensures
            self.neighbor_totals(rr, 0) == 0,
        decreases rr,
    {
        if rr > 0 {
            self.lemma_totals_zero(rr - 1);
        }
    }

    /// The total of root `r` over its first `k` neighbor buckets counts its
    /// entries in those buckets.
    proof fn lemma_total_is_cnt(&self, r: int, k: int)
        requires
            self.wf(),
            0 <= r < self.num_roots(),
            0 <= k <= HOP_RANGE,
        ensures
            self.neighbor_total(r, k) == cnt(self.buckets@, self.max_root_mask, r, r * 16, (r + k) * 16),
        decreases k,
    {
        if k > 0 {
            self.lemma_total_is_cnt(r, k - 1);
            assert(hop_ok_at(self.hopmap@, self.buckets@, self.max_root_mask, r, k - 1));
            crate::slot_model::lemma_cnt_split(
                self.buckets@,
                self.max_root_mask,
                r,
                r * 16,
                (r + k - 1) * 16,
                (r + k) * 16,
            );
        }
    }

    /// All entries of root `r` lie in its neighborhood.
    proof fn lemma_own_neighborhood(&self, r: int)
        requires
            self.wf(),
            0 <= r < self.num_roots(),
        ensures
            cnt(self.buckets@, self.max_root_mask, r, r * 16, (r + 16) * 16) == cnt(
                self.buckets@,
                self.max_root_mask,
                r,
                0,
                self.buckets@.len() as int,
            ),
    {
        let b = self.buckets@;
        let m = self.max_root_mask;
        let len = b.len() as int;
        assert((r + 16) * 16 <= len);
        crate::slot_model::lemma_cnt_split(b, m, r, 0, r * 16, len);
        crate::slot_model::lemma_cnt_split(b, m, r, r * 16, (r + 16) * 16, len);
        assert forall|j: int| 0 <= j < r * 16 implies !has_root(#[trigger] b[j], m, r) by {
            assert(slot_ok_at(self.tags@, b, m, j));
        }
        assert forall|j: int| (r + 16) * 16 <= j < len implies !has_root(#[trigger] b[j], m, r) by {
            assert(slot_ok_at(self.tags@, b, m, j));
        }
        crate::slot_model::lemma_cnt_zero(b, m, r, 0, r * 16);
        crate::slot_model::lemma_cnt_zero(b, m, r, (r + 16) * 16, len);
    }

    proof fn lemma_totals_are_counts(&self, rr: int)
        requires
            self.wf(),
            0 <= rr <= self.num_roots(),
        ensures
            self.neighbor_totals(rr, HOP_RANGE as int) == cnt_roots(
                self.buckets@,
                self.max_root_mask,
                rr,
                self.buckets@.len() as int,
            ),
        decreases rr,
    {
        if rr > 0 {
            self.lemma_totals_are_counts(rr - 1);
            self.lemma_total_is_cnt(rr - 1, HOP_RANGE as int);
            self.lemma_own_neighborhood(rr - 1);
        }
    }

    /// The distribution counts every entry held in a slot once: its counts
    /// over all roots add up to the number of entries outside the overflow
    /// list.
    pub proof fn lemma_distribution_total(&self)
        requires
            self.wf(),
        ensures
            self.distribution_sum(HOP_RANGE as int, self.num_roots()) == self@.len() - self.overflow_count(),
    {
        let b = self.buckets@;
        let m = self.max_root_mask;
        let rr = self.num_roots();
        self.lemma_distribution_exchange(HOP_RANGE as int, rr);
        self.lemma_totals_are_counts(rr);
        crate::slot_model::lemma_cnt_roots(b, m, rr, b.len() as int);
        assert forall|j: int| 0 <= j < b.len() && (#[trigger] b[j]) is Some implies spec_root((b[j]->0).0, m) < rr by {
            assert(slot_ok_at(self.tags@, b, m, j));
            lemma_root_bound((b[j]->0).0, m);
        }
        crate::slot_model::lemma_rooted_all(b, m, rr, b.len() as int);
        assert(b.take(b.len() as int) =~= b);
        self.lemma_len();
        lemma_seq_ms_len(self.overflow@);
    }

    /// The first `ll` counts of the histogram by count over the roots below
    /// `rr`, added up.
    pub open spec fn count_sum(&self, ll: int, rr: int) -> int
        decreases ll,
    {
        if ll <= 0 {
            0
        } else {
            self.count_sum(ll - 1, rr) + self.hist_by_count(ll - 1, rr)
        }
    }

    /// The part of root `r`'s entries that the first `ll` counts of the
    /// histogram by count hold.
    spec fn count_share(&self, r: int, ll: int) -> int
        decreases ll,
    {
        if ll <= 0 {
            0
        } else {
            self.count_share(r, ll - 1) + if self.nonzero_neighbors(r, HOP_RANGE as int) == ll {
                self.neighbor_total(r, HOP_RANGE as int)
            } else {
                0
            }
        }
    }

    spec fn count_shares(&self, rr: int, ll: int) -> int
        decreases rr,
    {
        if rr <= 0 {
            0
        } else {
            self.count_shares(rr - 1, ll) + self.count_share(rr - 1, ll)
        }
    }

    proof fn lemma_shares_step(&self, rr: int, ll: int)
        requires
            rr >= 0,
            ll > 0,
        ensures
            self.count_shares(rr, ll) == self.count_shares(rr, ll - 1) + self.hist_by_count(ll - 1, rr),
        decreases rr,
    {
        if rr > 0 {
            self.lemma_shares_step(rr - 1, ll);
        }
    }

    proof fn lemma_shares_zero(&self, rr: int)
        requires
            rr >= 0,
        ensures
            self.count_shares(rr, 0) == 0,
        decreases rr,
    {
        if rr > 0 {
            self.lemma_shares_zero(rr - 1);
        }
    }

    proof fn lemma_count_exchange(&self, ll: int, rr: int)
        requires
            ll >= 0,
            rr >= 0,
        ensures
            self.count_sum(ll, rr) == self.count_shares(rr, ll),
        decreases ll,
    {
        if ll > 0 {
            self.lemma_count_exchange(ll - 1, rr);
            self.lemma_shares_step(rr, ll);
        } else {
            self.lemma_shares_zero(rr);
        }
    }

    proof fn lemma_nonzero_bounds(&self, r: int, k: int)
        requires
            k >= 0,
        ensures
            0 <= self.nonzero_neighbors(r, k) <= k,
            self.nonzero_neighbors(r, k) == 0 ==> self.neighbor_total(r, k) == 0,
        decreases k,
    {
        if k > 0 {
            self.lemma_nonzero_bounds(r, k - 1);
        }
    }

    proof fn lemma_share(&self, r: int, ll: int)
        requires
            ll >= 0,
        ensures
            self.count_share(r, ll) == if 1 <= self.nonzero_neighbors(r, HOP_RANGE as int) <= ll {
                self.neighbor_total(r, HOP_RANGE as int)
            } else {
                0
            },
        decreases ll,
    {
        if ll > 0 {
            self.lemma_share(r, ll - 1);
        }
    }

    proof fn lemma_shares_are_totals(&self, rr: int)
        requires
            rr >= 0,
        ensures
            self.count_shares(rr, HOP_RANGE as int) == self.neighbor_totals(rr, HOP_RANGE as int),
        decreases rr,
    {
        if rr > 0 {
            self.lemma_shares_are_totals(rr - 1);
            self.lemma_share(rr - 1, HOP_RANGE as int);
            self.lemma_nonzero_bounds(rr - 1, HOP_RANGE as int);
        }
    }

    /// The histogram by count accounts for every entry once: its counts
    /// over all roots, with the overflow entries, add up to the number of
    /// entries.
    pub proof fn lemma_count_total(&self)
        requires
            self.wf(),
        ensures
            self.count_sum(HOP_RANGE as int, self.num_roots()) + self.overflow_count() == self@.len(),
    {
        let rr = self.num_roots();
        self.lemma_count_exchange(HOP_RANGE as int, rr);
        self.lemma_shares_are_totals(rr);
        self.lemma_distribution_exchange(HOP_RANGE as int, rr);
        self.lemma_distribution_total();
    }

    /// The neighbor counts of root `r`: how many of its neighbor buckets
    /// hold its entries, and how many entries that is.
    fn root_stats(&self, r: usize) -> (res: (usize, usize))
        requires
            self.wf(),
            r < self.num_roots(),
        ensures
            res.0 == self.nonzero_neighbors(r as int, HOP_RANGE as int),
            res.1 == self.neighbor_total(r as int, HOP_RANGE as int),
            res.0 <= HOP_RANGE,
            res.1 <= HOP_RANGE * LANES,
    {
        proof {
            self.lemma_neighborhood();
        }
        let mut nonzero: usize = 0;
        let mut total: usize = 0;
        let mut n: usize = 0;
        while n < HOP_RANGE
            invariant
                self.wf(),
                r < self.num_roots(),
                n <= HOP_RANGE,
                nonzero == self.nonzero_neighbors(r as int, n as int),
                total == self.neighbor_total(r as int, n as int),
                nonzero <= n,
                total <= n * LANES,
                forall|r2: int, n2: int| #![trigger self.neighbor_count(r2, n2)]
                    0 <= r2 && (r2 + 1 + HOP_RANGE) * LANES <= self.num_slots() && 0 <= n2 < HOP_RANGE
                        ==> 0 <= self.neighbor_count(r2, n2) <= LANES,
            decreases HOP_RANGE - n,
        {
            let x = self.hopmap[r * 16 + n];
            proof {
                assert(x as int == self.neighbor_count(r as int, n as int));
                assert(self.num_slots() == (self.max_root_mask + 1 + HOP_RANGE) * LANES);
            }
            if x > 0 {
                nonzero = nonzero + 1;
            }
            total = total + x as usize;
            n = n + 1;
        }
        (nonzero, total)
    }

    /// Computes the histograms of probe lengths and of where the entries
    /// sit relative to their root buckets.
    pub fn probe_histogram(&self) -> (h: ProbeHistogram)
        requires
            self.wf(),
        ensures
            h.spec_populated() == self@.len(),
            h.spec_buckets() == self.num_roots() + HOP_RANGE,
            forall|l: int| 0 <= l < HOP_RANGE ==> h.by_bucket()[l] == #[trigger] self.hist_by_bucket(
                l,
                self.num_roots(),
            ),
            forall|l: int| 0 <= l < HOP_RANGE ==> h.by_count()[l] == #[trigger] self.hist_by_count(
                l,
                self.num_roots(),
            ),
            h.by_count()[HOP_RANGE as int] == self.places().len() - self.num_slots(),
            forall|n: int| 0 <= n < HOP_RANGE ==> h.distribution()[n] == #[trigger] self.hist_distribution(
                n,
                self.num_roots(),
            ),
    {
        proof {
            self.lemma_len();
        }
        let roots: usize = if self.max_root_mask == usize::MAX { 0 } else { self.max_root_mask + 1 };
        let mut by_bucket: [usize; 16] = [0; 16];
        let mut by_count: [usize; 17] = [0; 17];
        let mut distribution: [usize; 16] = [0; 16];
        let mut r: usize = 0;
        while r < roots
            invariant
                self.wf(),
                roots == self.num_roots(),
                roots <= 2 * MAX_ROOTS,
                r <= roots,
                forall|l: int| 0 <= l < HOP_RANGE ==> by_bucket@[l] == #[trigger] self.hist_by_bucket(l, r as int),
                forall|l: int| 0 <= l < HOP_RANGE ==> by_count@[l] == #[trigger] self.hist_by_count(l, r as int),
                forall|n: int| 0 <= n < HOP_RANGE ==> distribution@[n] == #[trigger] self.hist_distribution(n, r as int),
                by_count@[HOP_RANGE as int] == 0,
                forall|l: int| 0 <= l < HOP_RANGE ==> by_bucket@[l] <= r * HOP_RANGE,
                forall|l: int| 0 <= l < HOP_RANGE ==> by_count@[l] <= r * HOP_RANGE * LANES,
                forall|n: int| 0 <= n < HOP_RANGE ==> distribution@[n] <= r * LANES,
            decreases roots - r,
        {
            let (nonzero, total) = self.root_stats(r);
            proof {
                self.lemma_neighborhood();
                assert(self.num_slots() == (self.max_root_mask + 1 + HOP_RANGE) * LANES);
            }
            if nonzero > 0 {
                let l = nonzero - 1;
                by_bucket[l] = by_bucket[l] + nonzero;
                by_count[l] = by_count[l] + total;
            }
            proof {
                assert forall|l: int| 0 <= l < HOP_RANGE implies by_bucket@[l] == #[trigger] self.hist_by_bucket(l, r + 1) by {
                    assert(self.hist_by_bucket(l, r + 1) == self.hist_by_bucket(l, r as int) + if self.nonzero_neighbors(
                        r as int,
                        HOP_RANGE as int,
                    ) == l + 1 {
                        l + 1
                    } else {
                        0
                    });
                }
                assert forall|l: int| 0 <= l < HOP_RANGE implies by_count@[l] == #[trigger] self.hist_by_count(l, r + 1) by {
                    assert(self.hist_by_count(l, r + 1) == self.hist_by_count(l, r as int) + if self.nonzero_neighbors(
                        r as int,
                        HOP_RANGE as int,
                    ) == l + 1 {
                        self.neighbor_total(r as int, HOP_RANGE as int)
                    } else {
                        0
                    });
                }
            }
            let ghost bb = by_bucket@;
            let ghost bc = by_count@;
            let mut n: usize = 0;
            while n < HOP_RANGE
                invariant
                    by_bucket@ == bb,
                    by_count@ == bc,
                    self.wf(),
                    roots == self.num_roots(),
                    roots <= 2 * MAX_ROOTS,
                    r < roots,
                    n <= HOP_RANGE,
                    forall|m: int| 0 <= m < n ==> distribution@[m] == #[trigger] self.hist_distribution(m, r + 1),
                    forall|m: int| n <= m < HOP_RANGE ==> distribution@[m] == #[trigger] self.hist_distribution(m, r as int),
                    forall|m: int| 0 <= m < n ==> distribution@[m] <= (r + 1) * LANES,
                    forall|m: int| n <= m < HOP_RANGE ==> distribution@[m] <= r * LANES,
                    forall|r2: int, n2: int| #![trigger self.neighbor_count(r2, n2)]
                        0 <= r2 && (r2 + 1 + HOP_RANGE) * LANES <= self.num_slots() && 0 <= n2 < HOP_RANGE
                            ==> 0 <= self.neighbor_count(r2, n2) <= LANES,
                    self.num_slots() == (self.max_root_mask + 1 + HOP_RANGE) * LANES,
                    roots == self.max_root_mask + 1,
                decreases HOP_RANGE - n,
            {
                let x = self.hopmap[r * 16 + n];
                proof {
                    assert(x as int == self.neighbor_count(r as int, n as int));
                    assert(distribution@[n as int] <= r * LANES);
                    assert((r + 1) * LANES <= 2 * MAX_ROOTS * LANES) by (nonlinear_arith)
                        requires r < 2 * MAX_ROOTS;
                }
                distribution[n] = distribution[n] + x as usize;
                proof {
                    assert(self.hist_distribution(n as int, r + 1) == self.hist_distribution(n as int, r as int)
                        + self.neighbor_count(r as int, n as int));
                }
                n = n + 1;
            }
            r = r + 1;
        }
        by_count[16] = self.overflow.len();
        proof {
            lemma_seq_ms_len(self.overflow@);
        }
        ProbeHistogram {
            populated: self.populated,
            buckets: roots + HOP_RANGE,
            probe_length_by_bucket: by_bucket,
            probe_length_by_count: by_count,
            bucket_distribution: distribution,
        }
    }
}

impl<V: Clone> Clone for HashTable<V> {
    /// Copies the table slot by slot: the same entries at the same places,
    /// with the same hashes, each value cloned.
    fn clone(&self) -> (res: Self)
        ensures
            self.wf() ==> {
                &&& res.wf()
                &&& res.spec_capacity() == self.spec_capacity()
                &&& res.num_slots() == self.num_slots()
                &&& res.places().len() == self.places().len()
                &&& forall|i: int| 0 <= i < self.places().len() ==> (#[trigger] res.places()[i] is Some
                    <==> self.places()[i] is Some)
                &&& forall|i: int| 0 <= i < self.places().len() && self.places()[i] is Some ==> {
                    &&& (#[trigger] res.places()[i]->0).0 == (self.places()[i]->0).0
                    &&& cloned((self.places()[i]->0).1, (res.places()[i]->0).1)
                }
            },
    {
        let n = self.buckets.len();
        let mut buckets: Vec<Option<(u64, V)>> = Vec::with_capacity(n);
        let mut i: usize = 0;
        while i < n
            invariant
                n == self.buckets@.len(),
                i <= n,
                buckets@.len() == i,
                forall|j: int| 0 <= j < i ==> (#[trigger] buckets@[j] is Some <==> self.buckets@[j] is Some),
                forall|j: int| 0 <= j < i && self.buckets@[j] is Some ==> {
                    &&& (#[trigger] buckets@[j]->0).0 == (self.buckets@[j]->0).0
                    &&& cloned((self.buckets@[j]->0).1, (buckets@[j]->0).1)
                },
            decreases n - i,
        {
            match &self.buckets[i] {
                Some(e) => buckets.push(Some((e.0, e.1.clone()))),
                None => buckets.push(None),
            }
            i = i + 1;
        }
        let m = self.overflow.len();
        let mut overflow: Vec<(u64, V)> = Vec::with_capacity(m);
        let mut j: usize = 0;
        while j < m
            invariant
                m == self.overflow@.len(),
                j <= m,
                overflow@.len() == j,
                forall|t: int| 0 <= t < j ==> {
                    &&& (#[trigger] overflow@[t]).0 == self.overflow@[t].0
                    &&& cloned(self.overflow@[t].1, overflow@[t].1)
                },
            decreases m - j,
        {
            let e = &self.overflow[j];
            overflow.push((e.0, e.1.clone()));
            j = j + 1;
        }
        let res = HashTable {
            hopmap: self.hopmap.clone(),
            tags: self.tags.clone(),
            buckets,
            overflow,
            populated: self.populated,
            max_pop: self.max_pop,
            max_root_mask: self.max_root_mask,
        };
        proof {
            if self.wf() {
                assert(res.hopmap@ =~= self.hopmap@);
                assert(res.tags@ =~= self.tags@);
                lemma_layout_same_hashes(self.hopmap@, self.tags@, self.buckets@, res.buckets@, self.max_root_mask);
                crate::slot_model::lemma_slots_ms_len_same(self.buckets@, res.buckets@);
                assert forall|i: int| 0 <= i < self.places().len() implies (#[trigger] res.places()[i] is Some
                    <==> self.places()[i] is Some) && (self.places()[i] is Some ==> {
                    &&& (res.places()[i]->0).0 == (self.places()[i]->0).0
                    &&& cloned((self.places()[i]->0).1, (res.places()[i]->0).1)
                }) by {
                    if i >= n {
                        assert(res.places()[i] == Some(res.overflow@[i - n]));
                        assert(self.places()[i] == Some(self.overflow@[i - n]));
                    }
                }
            }
        }
        res
    }
}

/// Removing the entry that an insertion added undoes the insertion, and the
/// length goes back to what it was.
pub proof fn lemma_remove_undoes_insert<V>(t0: HashTable<V>, t1: HashTable<V>, t2: HashTable<V>, hash: u64, value: V)
    requires
        t1@ == t0@.insert((hash, value)),
        t2@ == t1@.remove((hash, value)),
    ensures
        t2@ == t0@,
        t2@.len() == t0@.len(),
        t1@.len() == t0@.len() + 1,
{
    assert(t2@ =~= t0@);
}

/// What the search for a free slot in a neighborhood found.
enum Vacancy {
    /// A free slot inside the neighborhood.
    Slot(usize),
    /// No free slot at or after the root bucket.
    NoEmpty,
    /// A free slot beyond the neighborhood that could not be bubbled back.
    NoMovable,
}

/// Slot `j` holds an entry whose neighborhood also covers slot `target`,
/// so the entry may move there.
pub open spec fn movable<V>(b: Seq<Option<(u64, V)>>, mask: usize, j: int, target: int) -> bool {
    &&& b[j] is Some
    &&& spec_root((b[j]->0).0, mask) * 16 <= j
    &&& target < (spec_root((b[j]->0).0, mask) + 16) * 16
}

/// The slots `q` hold entries exactly where the slots `p` do, under the
/// same hashes.
pub open spec fn same_hashes<V>(p: Seq<Option<(u64, V)>>, q: Seq<Option<(u64, V)>>) -> bool {
    &&& p.len() == q.len()
    &&& forall|j: int| 0 <= j < p.len() ==> (#[trigger] p[j] is Some <==> q[j] is Some)
    &&& forall|j: int| 0 <= j < p.len() && (#[trigger] p[j]) is Some ==> (p[j]->0).0 == (q[j]->0).0
}

/// The room a table has left to grow, which every growth step reduces.
pub open spec fn growth_room(mask: usize) -> int {
    2 * MAX_ROOTS + 1 - roots_of(mask)
}

impl<V> HashTable<V> {
    /// The first empty slot at or after `start`.
    fn find_next_unoccupied(&self, start: usize) -> (r: Option<usize>)
        requires
            self.wf(),
            start <= self.buckets@.len(),
        ensures
            match r {
                Some(i) => {
                    &&& start <= i < self.buckets@.len()
                    &&& self.buckets@[i as int] is None
                    &&& forall|j: int| start <= j < i ==> #[trigger] self.buckets@[j] is Some
                },
                None => forall|j: int| start <= j < self.buckets@.len() ==> #[trigger] self.buckets@[j] is Some,
            },
    {
        let len = self.tags.len();
        let mut offset = start;
        while offset < len
            invariant
                self.wf(),
                len == self.buckets@.len(),
                start <= offset <= len,
                forall|j: int| start <= j < offset ==> #[trigger] self.buckets@[j] is Some,
            decreases len - offset,
        {
            proof {
                assert(slot_ok_at(self.tags@, self.buckets@, self.max_root_mask, offset as int));
            }
            if self.tags[offset] == EMPTY {
                return Some(offset);
            }
            offset = offset + 1;
        }
        None
    }

    /// The first entry in `[bubble_base, empty_idx)` whose neighborhood also
    /// covers `empty_idx`, with its hash.
    fn find_next_movable_index(&self, bubble_base: usize, empty_idx: usize) -> (r: Option<(usize, u64)>)
        requires
            self.wf(),
            bubble_base <= empty_idx < self.buckets@.len(),
        ensures
            match r {
                Some((idx, hash)) => {
                    &&& bubble_base <= idx < empty_idx
                    &&& self.buckets@[idx as int] is Some
                    &&& (self.buckets@[idx as int]->0).0 == hash
                    &&& spec_root(hash, self.max_root_mask) * 16 <= idx
                    &&& empty_idx < (spec_root(hash, self.max_root_mask) + 16) * 16
                    &&& forall|j: int| bubble_base <= j < idx ==> !#[trigger] movable(
                        self.buckets@,
                        self.max_root_mask,
                        j,
                        empty_idx as int,
                    )
                },
                None => forall|j: int| bubble_base <= j < empty_idx ==> !#[trigger] movable(
                    self.buckets@,
                    self.max_root_mask,
                    j,
                    empty_idx as int,
                ),
            },
    {
        let mut idx = bubble_base;
        while idx < empty_idx
            invariant
                self.wf(),
                bubble_base <= idx <= empty_idx,
                empty_idx < self.buckets@.len(),
                forall|j: int| bubble_base <= j < idx ==> !#[trigger] movable(
                    self.buckets@,
                    self.max_root_mask,
                    j,
                    empty_idx as int,
                ),
            decreases empty_idx - idx,
        {
            proof {
                assert(slot_ok_at(self.tags@, self.buckets@, self.max_root_mask, idx as int));
            }
            match &self.buckets[idx] {
                Some(e) => {
                    let hash = e.0;
                    let hopmap_index = self.hopmap_index(hash) * LANES;
                    let distance = empty_idx - hopmap_index;
                    if distance < HOP_RANGE * LANES {
                        return Some((idx, hash));
                    }
                },
                None => {},
            }
            idx = idx + 1;
        }
        None
    }

    /// Moves the entry of slot `from` into the empty slot `to`, which lies in
    /// the entry's neighborhood.
    fn move_entry(&mut self, from: usize, to: usize)
        requires
            old(self).wf(),
            from < old(self).buckets@.len(),
            to < old(self).buckets@.len(),
            old(self).buckets@[from as int] is Some,
            old(self).buckets@[to as int] is None,
            spec_root((old(self).buckets@[from as int]->0).0, old(self).max_root_mask) * 16 <= to,
            to < (spec_root((old(self).buckets@[from as int]->0).0, old(self).max_root_mask) + 16) * 16,
        ensures
            final(self).wf(),
            final(self)@ == old(self)@,
            final(self).buckets@ == old(self).buckets@.update(to as int, old(self).buckets@[from as int]).update(
                from as int,
                None,
            ),
            final(self).overflow == old(self).overflow,
            final(self).populated == old(self).populated,
            final(self).max_pop == old(self).max_pop,
            final(self).max_root_mask == old(self).max_root_mask,
    {
        let ghost b0 = self.buckets@;
        let e = self.take_slot(from);
        self.put_slot(to, e.0, e.1);
        proof {
            let b1 = b0.update(from as int, None);
            let b2 = b1.update(to as int, Some(e));
            lemma_slots_ms_update(b0, from as int, None);
            lemma_slots_ms_update(b1, to as int, Some(e));
            assert(b1.update(to as int, None) =~= b1);
            assert(b2 =~= b0.update(to as int, b0[from as int]).update(from as int, None));
            assert(slots_ms(b2) =~= slots_ms(b0));
        }
    }

    /// All neighbor buckets of root `r` are completely filled with entries
    /// of that root.
    fn hop_is_full(&self, r: usize) -> (full: bool)
        requires
            self.wf(),
            self.max_root_mask != usize::MAX,
            r <= self.max_root_mask,
        ensures
            full == forall|n: int| 0 <= n < 16 ==> #[trigger] self.hopmap@[r * 16 + n] == LANES,
    {
        let mut i: usize = 0;
        while i < HOP_RANGE
            invariant
                self.wf(),
                self.max_root_mask != usize::MAX,
                r <= self.max_root_mask,
                i <= HOP_RANGE,
                forall|n: int| 0 <= n < i ==> #[trigger] self.hopmap@[r * 16 + n] == LANES,
            decreases HOP_RANGE - i,
        {
            if self.hopmap[r * 16 + i] < LANES as u8 {
                proof {
                    assert(self.hopmap@[r * 16 + i] != LANES);
                }
                return false;
            }
            proof {
                assert(hop_ok_at(self.hopmap@, self.buckets@, self.max_root_mask, r as int, i as int));
                crate::slot_model::lemma_cnt_bound(
                    self.buckets@,
                    self.max_root_mask,
                    r as int,
                    (r + i) * 16,
                    (r + i + 1) * 16,
                );
            }
            i = i + 1;
        }
        true
    }

    /// Looks for a free slot in the neighborhood of `hash`'s root without
    /// growing: the first free slot at or after the root, bubbled backwards
    /// into the neighborhood when it lies beyond.
    fn bubble_vacancy(&mut self, hash: u64) -> (r: Vacancy)
        requires
            old(self).wf(),
            old(self).max_root_mask != usize::MAX,
        ensures
            final(self).wf(),
            final(self)@ == old(self)@,
            final(self).populated == old(self).populated,
            final(self).max_pop == old(self).max_pop,
            final(self).max_root_mask == old(self).max_root_mask,
            final(self).overflow == old(self).overflow,
            match r {
                Vacancy::Slot(i) => final(self).free_slot_for(hash, i as int),
                Vacancy::NoEmpty => {
                    &&& final(self).buckets@ == old(self).buckets@
                    &&& forall|j: int|
                        spec_root(hash, old(self).max_root_mask) * 16 <= j < old(self).buckets@.len()
                            ==> #[trigger] old(self).buckets@[j] is Some
                },
                Vacancy::NoMovable => exists|e: int| {
                    &&& (spec_root(hash, final(self).max_root_mask) + 16) * 16 <= e < final(self).buckets@.len()
                    &&& final(self).buckets@[e] is None
                    &&& forall|j: int| e - 15 * 16 <= j < e ==> !#[trigger] movable(
                        final(self).buckets@,
                        final(self).max_root_mask,
                        j,
                        e,
                    )
                },
            },
            !(r is Slot) ==> slots_ms(old(self).buckets@).len() >= HOP_RANGE * LANES,
            !(r is Slot) ==> final(self).no_vacancy(hash),
    {
        let hop_bucket = self.hopmap_index(hash);
        let empty_idx = self.find_next_unoccupied(hop_bucket * LANES);
        proof {
            lemma_root_bound(hash, self.max_root_mask);
        }
        let mut absolute_empty_idx = match empty_idx {
            Some(i) => i,
            None => {
                proof {
                    lemma_slots_ms_filled(self.buckets@, hop_bucket * 16, self.buckets@.len() as int);
                }
                return Vacancy::NoEmpty;
            },
        };
        let ghost first_empty = absolute_empty_idx;
        proof {
            if first_empty >= (hop_bucket + 16) * 16 {
                lemma_slots_ms_filled(self.buckets@, hop_bucket * 16, first_empty as int);
            }
        }
        while absolute_empty_idx >= (hop_bucket + HOP_RANGE) * LANES
            invariant
                absolute_empty_idx <= first_empty,
                first_empty >= (hop_bucket + 16) * 16 ==> slots_ms(old(self).buckets@).len() >= HOP_RANGE * LANES,
                self.wf(),
                self@ == old(self)@,
                self.populated == old(self).populated,
                self.max_pop == old(self).max_pop,
                self.max_root_mask == old(self).max_root_mask,
                self.overflow == old(self).overflow,
                self.max_root_mask != usize::MAX,
                hop_bucket == spec_root(hash, self.max_root_mask),
                hop_bucket <= self.max_root_mask,
                hop_bucket * 16 <= absolute_empty_idx < self.buckets@.len(),
                self.buckets@[absolute_empty_idx as int] is None,
            decreases absolute_empty_idx,
        {
            let bubble_base = absolute_empty_idx - (HOP_RANGE - 1) * LANES;
            match self.find_next_movable_index(bubble_base, absolute_empty_idx) {
                Some((absolute_idx, moved_hash)) => {
                    self.move_entry(absolute_idx, absolute_empty_idx);
                    absolute_empty_idx = absolute_idx;
                },
                None => {
                    return Vacancy::NoMovable;
                },
            }
        }
        Vacancy::Slot(absolute_empty_idx)
    }
}

impl<V> HashTable<V> {
    /// Stores an entry during a rehash: in a free slot of its neighborhood,
    /// bubbled into place if need be, or in the overflow list when that fails.
    fn rehash_place(&mut self, hash: u64, value: V)
        requires
            old(self).wf(),
            old(self).max_root_mask != usize::MAX,
            old(self).populated < usize::MAX,
        ensures
            final(self).wf(),
            final(self)@ =~= old(self)@.insert((hash, value)),
            final(self).populated == old(self).populated + 1,
            final(self).max_pop == old(self).max_pop,
            final(self).max_root_mask == old(self).max_root_mask,
            final(self).overflow@ == old(self).overflow@ || (final(self).overflow@ == old(self).overflow@.push(
                (hash, value),
            ) && final(self).no_vacancy(hash)),
            slots_ms(old(self).buckets@).len() < HOP_RANGE * LANES ==> final(self).overflow@ == old(self).overflow@,
    {
        match self.bubble_vacancy(hash) {
            Vacancy::Slot(i) => {
                proof {
                    lemma_slots_ms_update(self.buckets@, i as int, Some((hash, value)));
                    assert(self.buckets@.update(i as int, None) =~= self.buckets@);
                }
                self.put_slot(i, hash, value);
            },
            _ => {
                proof {
                    lemma_seq_ms_push(self.overflow@, (hash, value));
                }
                self.overflow.push((hash, value));
            },
        }
        self.populated = self.populated + 1;
    }

    /// Stores an entry in the free slot `i` of its neighborhood, or in the
    /// overflow list when there is none.
    fn place_entry(&mut self, slot: Option<usize>, hash: u64, value: V)
        requires
            old(self).wf(),
            old(self).populated < usize::MAX,
            old(self).max_root_mask != usize::MAX,
            match slot {
                Some(i) => old(self).free_slot_for(hash, i as int),
                None => true,
            },
        ensures
            final(self).wf(),
            final(self)@ =~= old(self)@.insert((hash, value)),
            final(self).populated == old(self).populated + 1,
            final(self).max_pop == old(self).max_pop,
            final(self).max_root_mask == old(self).max_root_mask,
            match slot {
                Some(i) => {
                    &&& final(self).buckets@ == old(self).buckets@.update(i as int, Some((hash, value)))
                    &&& final(self).overflow@ == old(self).overflow@
                },
                None => {
                    &&& final(self).buckets@ == old(self).buckets@
                    &&& final(self).overflow@ == old(self).overflow@.push((hash, value))
                },
            },
    {
        match slot {
            Some(i) => {
                proof {
                    lemma_slots_ms_update(self.buckets@, i as int, Some((hash, value)));
                    assert(self.buckets@.update(i as int, None) =~= self.buckets@);
                }
                self.put_slot(i, hash, value);
            },
            None => {
                proof {
                    lemma_seq_ms_push(self.overflow@, (hash, value));
                }
                self.overflow.push((hash, value));
            },
        }
        self.populated = self.populated + 1;
    }

    /// Rebuilds the table with `capacity` buckets and reinserts every entry.
    fn do_resize_rehash(&mut self, capacity: Capacity)
        requires
            old(self).wf(),
            capacity.base > HOP_RANGE,
            capacity.base <= 2 * MAX_ROOTS + HOP_RANGE,
        ensures
            final(self).wf(),
            final(self)@ =~= old(self)@,
            final(self).populated == old(self).populated,
            roots_of(final(self).max_root_mask) >= capacity.base - HOP_RANGE,
            final(self).spec_capacity() >= spec_load(capacity.base * LANES),
            old(self).overflow@.len() == 0 ==> final(self).max_root_mask == capacity.spec_max_root_mask(),
            old(self).overflow@.len() == 0 ==> final(self).spec_capacity() == spec_load(capacity.base * LANES),
            old(self)@.len() < HOP_RANGE * LANES ==> final(self).overflow@.len() == 0,
            old(self)@.len() < HOP_RANGE * LANES ==> final(self).max_root_mask == capacity.spec_max_root_mask(),
            final(self).max_root_mask == capacity.spec_max_root_mask() || old(self).rebuild_blocked(
                capacity.base * LANES,
            ),
        decreases growth_room(capacity.spec_max_root_mask()), 2int,
    {
        let mut old_table = Self::allocate(capacity);
        std::mem::swap(self, &mut old_table);
        let ghost orig = old_table@;
        let ghost orig_pop = old_table.populated;
        let ghost orig_ovf = old_table.overflow@.len();
        let ghost orig_ov = old_table.overflow@;
        proof {
            old_table.lemma_len();
            lemma_seq_ms_len(old_table.overflow@);
        }
        let HashTable { hopmap: _, tags: _, buckets: mut old_buckets, overflow: mut old_overflow, .. } =
            old_table;
        let ghost cap_mask = self.max_root_mask;
        let mut i: usize = 0;
        while i < old_buckets.len()
            invariant
                self.wf(),
                self.max_root_mask == cap_mask,
                cap_mask != usize::MAX,
                roots_of(cap_mask) == capacity.base - HOP_RANGE,
                self.max_pop == spec_load(capacity.base * LANES),
                0 <= i <= old_buckets@.len(),
                forall|j: int| 0 <= j < i ==> #[trigger] old_buckets@[j] is None,
                old_overflow@.len() == orig_ovf,
                old_overflow@ == orig_ov,
                orig_pop < HOP_RANGE * LANES ==> self.overflow@.len() == 0,
                self@.add(slots_ms(old_buckets@)).add(seq_ms(old_overflow@)) =~= orig,
                self.populated + slots_ms(old_buckets@).len() + old_overflow@.len() == orig_pop,
            decreases old_buckets@.len() - i,
        {
            proof {
                self.lemma_len();
            }
            if old_buckets[i].is_some() {
                proof {
                    lemma_slots_ms_len(self.buckets@);
                    lemma_seq_ms_len(self.overflow@);
                    lemma_slots_ms_update(old_buckets@, i as int, None);
                    assert(old_buckets@.update(i as int, None).update(i as int, None) =~= old_buckets@.update(
                        i as int,
                        None,
                    ));
                }
                let entry = old_buckets[i].take();
                match entry {
                    Some(e) => {
                        self.rehash_place(e.0, e.1);
                    },
                    None => {},
                }
            }
            i = i + 1;
        }
        proof {
            lemma_slots_ms_all_none(old_buckets@);
        }
        while old_overflow.len() > 0
            invariant
                self.wf(),
                roots_of(self.max_root_mask) >= capacity.base - HOP_RANGE,
                self.max_pop >= spec_load(capacity.base * LANES),
                old_overflow@.len() <= orig_ovf,
                orig_ovf == 0 ==> self.max_root_mask == cap_mask,
                orig_ovf == 0 ==> self.max_pop == spec_load(capacity.base * LANES),
                orig_pop < HOP_RANGE * LANES ==> self.overflow@.len() == 0,
                orig_pop < HOP_RANGE * LANES ==> self.max_root_mask == cap_mask,
                cap_mask != usize::MAX,
                orig == old(self)@,
                orig_ov == old(self).overflow@,
                orig_ovf == orig_ov.len(),
                old_overflow@ == orig_ov.subrange(orig_ovf - old_overflow@.len(), orig_ovf as int),
                roots_of(cap_mask) == capacity.base - HOP_RANGE,
                self.max_root_mask == cap_mask || old(self).rebuild_blocked(capacity.base * LANES),
                self@.add(seq_ms(old_overflow@)) =~= orig,
                self.populated + old_overflow@.len() == orig_pop,
            decreases old_overflow@.len(),
        {
            proof {
                let s = old_overflow@;
                assert(s =~= seq![s[0]].add(s.remove(0)));
                lemma_seq_ms_update(s, 0, s[0]);
                crate::slot_model::lemma_seq_ms_remove_first(s);
            }
            let ghost ov_before = old_overflow@;
            let entry = old_overflow.remove(0);
            let ghost before = *self;
            proof {
                self.lemma_len();
                assert(entry == orig_ov[orig_ovf - ov_before.len()]);
                assert(old_overflow@ =~= orig_ov.subrange(orig_ovf - old_overflow@.len(), orig_ovf as int));
            }
            let slot = self.vacant_slot(entry.0);
            proof {
                lemma_load_monotone(before.max_root_mask, self.max_root_mask);
                if before.max_root_mask == cap_mask && self.max_root_mask != cap_mask {
                    let t = choose|t: HashTable<V>|
                        #[trigger] t.no_vacancy(entry.0) && t.wf() && t.max_root_mask == before.max_root_mask && t@
                            == before@;
                    assert(orig_ov.contains(entry));
                    assert forall|x: (u64, V)| t@.count(x) <= orig.count(x) by {
                        assert(orig.count(x) == before@.count(x) + seq_ms(ov_before).count(x));
                    }
                    assert(t@.subset_of(orig));
                    assert(t.spec_slots() == capacity.base * LANES);
                    assert(old(self).rebuild_blocked(capacity.base * LANES));
                }
            }
            self.place_entry(slot, entry.0, entry.1);
        }
        proof {
            assert(old_overflow@ =~= Seq::<(u64, V)>::empty());
        }
    }

    /// Grows the table to the next power of two of root buckets (at least
    /// `HOP_RANGE + 1`) and reinserts every entry. Returns `false`, leaving the
    /// table unchanged, when the table is already as large as it can get.
    fn resize_rehash(&mut self) -> (grown: bool)
        requires
            old(self).wf(),
        ensures
            final(self).wf(),
            final(self)@ =~= old(self)@,
            final(self).populated == old(self).populated,
            grown ==> roots_of(final(self).max_root_mask) > roots_of(old(self).max_root_mask),
            !grown ==> *final(self) == *old(self),
            !grown ==> old(self).max_root_mask != usize::MAX,
            !grown ==> old(self).at_max_size(),
            grown ==> final(self).spec_capacity() > old(self).spec_capacity(),
            grown && old(self)@.len() < HOP_RANGE * LANES ==> final(self).overflow@.len() == 0,
            final(self).spec_capacity() >= old(self).spec_capacity(),
        decreases growth_room(old(self).max_root_mask), 0int,
    {
        let roots: usize = if self.max_root_mask == usize::MAX {
            0
        } else {
            self.max_root_mask + 1
        };
        let wanted = if roots < HOP_RANGE {
            HOP_RANGE
        } else {
            roots
        };
        if wanted >= MAX_ROOTS {
            return false;
        }
        let capacity = Capacity::from(wanted + 1);
        let ghost before = *self;
        self.do_resize_rehash(capacity);
        proof {
            lemma_load_monotone(before.max_root_mask, self.max_root_mask);
            lemma_load_strict(before.max_root_mask, self.max_root_mask);
        }
        true
    }

    /// Finds a free slot for `hash` in its neighborhood, growing the table as
    /// long as bubbling fails, or returns `None` when the entry must go to the
    /// overflow list: its root's neighborhood is completely full, or the
    /// table cannot grow any further.
    fn vacant_slot(&mut self, hash: u64) -> (r: Option<usize>)
        requires
            old(self).wf(),
        ensures
            final(self).wf(),
            final(self)@ =~= old(self)@,
            final(self).populated == old(self).populated,
            roots_of(final(self).max_root_mask) >= roots_of(old(self).max_root_mask),
            final(self).spec_capacity() >= old(self).spec_capacity(),
            final(self).max_root_mask != usize::MAX,
            match r {
                Some(i) => final(self).free_slot_for(hash, i as int),
                None => final(self).neighborhood_full(hash) || final(self).at_max_size(),
            },
            old(self)@.len() < HOP_RANGE * LANES ==> r is Some,
            old(self)@.len() < HOP_RANGE * LANES ==> final(self).overflow@.len() <= old(self).overflow@.len(),
            old(self)@.len() < HOP_RANGE * LANES && old(self).max_root_mask != usize::MAX
                ==> final(self).max_root_mask == old(self).max_root_mask,
            final(self).max_root_mask == old(self).max_root_mask || old(self).max_root_mask == usize::MAX
                || exists|t: HashTable<V>|
                #[trigger] t.no_vacancy(hash) && t.wf() && t.max_root_mask == old(self).max_root_mask && t@ == old(self)@,
        decreases growth_room(old(self).max_root_mask), 1int,
    {
        loop
            invariant
                self.wf(),
                self@ =~= old(self)@,
                self.populated == old(self).populated,
                roots_of(self.max_root_mask) >= roots_of(old(self).max_root_mask),
                self.spec_capacity() >= old(self).spec_capacity(),
                old(self)@.len() < HOP_RANGE * LANES ==> self.overflow@.len() <= old(self).overflow@.len(),
                old(self)@.len() < HOP_RANGE * LANES && old(self).max_root_mask != usize::MAX
                    ==> self.max_root_mask == old(self).max_root_mask,
                self.max_root_mask == old(self).max_root_mask || old(self).max_root_mask == usize::MAX
                    || exists|t: HashTable<V>|
                    #[trigger] t.no_vacancy(hash) && t.wf() && t.max_root_mask == old(self).max_root_mask && t@
                        == old(self)@,
            decreases growth_room(self.max_root_mask),
        {
            proof {
                self.lemma_len();
                lemma_seq_ms_len(self.overflow@);
            }
            if self.max_root_mask != usize::MAX {
                match self.bubble_vacancy(hash) {
                    Vacancy::Slot(i) => {
                        return Some(i);
                    },
                    Vacancy::NoEmpty => {},
                    Vacancy::NoMovable => {
                        let hop_bucket = self.hopmap_index(hash);
                        if self.hop_is_full(hop_bucket) {
                            return None;
                        }
                    },
                }
            }
            proof {
                if self.max_root_mask != usize::MAX {
                    assert(self.no_vacancy(hash));
                }
            }
            if !self.resize_rehash() {
                return None;
            }
        }
    }
}

/// A larger root mask never has a smaller capacity.
pub proof fn lemma_load_monotone(m1: usize, m2: usize)
    requires
        roots_of(m1) <= roots_of(m2),
    ensures
        spec_load(slots_of(m1)) <= spec_load(slots_of(m2)),
{
    assert(slots_of(m1) <= slots_of(m2));
    assert(slots_of(m1) * 23 / 25 <= slots_of(m2) * 23 / 25) by (nonlinear_arith)
        requires
            0 <= slots_of(m1) <= slots_of(m2),
    ;
}

/// Shrinking twice changes nothing more: a table that `shrink_to_fit`
/// rebuilt, from entries none of which were in the overflow list, at the
/// size made for them is sized for no fewer entries, so a second call
/// leaves it as it is.
pub proof fn lemma_shrink_idempotent<V>(t0: HashTable<V>, t1: HashTable<V>)
    requires
        t0.wf(),
        t1.wf(),
        t1@ == t0@,
        t0.overflow_count() == 0,
        t1.spec_slots() == spec_slots_for(t0.shrink_request()),
    ensures
        spec_slots_for(t1.shrink_request()) >= t1.spec_slots(),
{
    lemma_slots_for_monotone(t0.shrink_request(), t1.shrink_request());
}

/// A table with more root buckets has a larger capacity.
pub proof fn lemma_load_strict(m1: usize, m2: usize)
    requires
        roots_of(m1) < roots_of(m2),
    ensures
        spec_load(slots_of(m1)) < spec_load(slots_of(m2)),
{
    assert(slots_of(m1) + 16 <= slots_of(m2));
    assert(slots_of(m1) * 23 / 25 < slots_of(m2) * 23 / 25) by (nonlinear_arith)
        requires
            0 <= slots_of(m1),
            slots_of(m1) + 16 <= slots_of(m2),
    ;
}

/// A view into a single entry of the table, which may be vacant or occupied.
///
/// This enum is constructed by [`HashTable::entry`].
pub enum Entry<'a, V> {
    /// A vacant entry: no value with the hash satisfies the predicate.
    Vacant(VacantEntry<'a, V>),
    /// An occupied entry: a value with the hash satisfies the predicate.
    Occupied(OccupiedEntry<'a, V>),
}

/// A view into a vacant entry of the table, ready to take a value.
pub struct VacantEntry<'a, V> {
    pub(crate) table: &'a mut HashTable<V>,
    pub(crate) hopmap_root: usize,
    pub(crate) hash: u64,
    pub(crate) n_index: usize,
    pub(crate) is_overflow: bool,
}

/// A view into an occupied entry of the table.
pub struct OccupiedEntry<'a, V> {
    pub(crate) table: &'a mut HashTable<V>,
    pub(crate) root_index: usize,
    pub(crate) n_index: usize,
    pub(crate) overflow_index: Option<usize>,
}

impl<'a, V> VacantEntry<'a, V> {
    /// The borrow of the table the entry belongs to.
    pub closed spec fn table_ref(&self) -> &'a mut HashTable<V> {
        self.table
    }

    /// The hash a value inserted through the entry is stored under.
    pub closed spec fn spec_hash(&self) -> u64 {
        self.hash
    }

    /// A value inserted through the entry goes to the overflow list.
    pub closed spec fn in_overflow(&self) -> bool {
        self.is_overflow
    }

    /// The entry still points at a free place for its hash.
    pub closed spec fn valid(&self) -> bool {
        &&& self.table.wf()
        &&& self.table.vacancy_ok(self.hash, self.hopmap_root, self.n_index, self.is_overflow)
    }

    /// A valid entry belongs to a well-formed table.
    pub proof fn lemma_valid(&self)
        requires
            self.valid(),
        ensures
            (*self.table_ref()).wf(),
    {
    }

    /// Inserts a value into the vacant entry and returns a mutable reference
    /// to it. The value is stored under the entry's hash.
    pub fn insert(self, value: V) -> (r: &'a mut V)
        requires
            self.valid(),
        ensures
            *r == value,
            (*final(self.table_ref())).wf(),
            (*final(self.table_ref()))@ =~= (*self.table_ref())@.insert((self.spec_hash(), *final(r))),
            (*final(self.table_ref())).spec_capacity() == (*self.table_ref()).spec_capacity(),
            (*final(self.table_ref())).at_max_size() == (*self.table_ref()).at_max_size(),
            !self.in_overflow() ==> (*final(self.table_ref())).overflow_count() == (*self.table_ref()).overflow_count(),
    {
        let table = self.table;
        let ghost t0 = *table;
        if self.is_overflow {
            return Self::insert_overflow(table, self.hash, value);
        }
        let target_index = self.hopmap_root * LANES + self.n_index;
        table.place_entry(Some(target_index), self.hash, value);
        let ghost t1 = *table;
        proof {
            t1.lemma_rewrite_slot(target_index as int);
            assert(t1.buckets@[target_index as int] == Some((self.hash, value)));
            assert(t1@.remove((self.hash, value)) =~= t0@);
        }
        table.slot_value_mut(target_index)
    }

    fn insert_overflow(table: &'a mut HashTable<V>, hash: u64, value: V) -> (r: &'a mut V)
        requires
            old(table).wf(),
            old(table).max_root_mask != usize::MAX,
            old(table).populated < usize::MAX,
        ensures
            *r == value,
            (*final(table)).wf(),
            (*final(table))@ =~= (*old(table))@.insert((hash, *final(r))),
            (*final(table)).spec_capacity() == (*old(table)).spec_capacity(),
            (*final(table)).at_max_size() == (*old(table)).at_max_size(),
    {
        let ghost t0 = *table;
        table.place_entry(None, hash, value);
        let j = table.overflow.len() - 1;
        let ghost t1 = *table;
        proof {
            t1.lemma_rewrite_overflow(j as int);
            assert(t1@.remove((hash, value)) =~= t0@);
        }
        let e = &mut table.overflow[j];
        &mut e.1
    }
}

impl<'a, V> OccupiedEntry<'a, V> {
    /// The borrow of the table the entry belongs to.
    pub closed spec fn table_ref(&self) -> &'a mut HashTable<V> {
        self.table
    }

    /// Where the entry points: its root bucket, its slot among the root's
    /// neighbors, or its place in the overflow list.
    pub closed spec fn position(&self) -> (usize, usize, Option<usize>) {
        (self.root_index, self.n_index, self.overflow_index)
    }

    /// The entry points at a stored entry of the table.
    pub closed spec fn valid(&self) -> bool {
        &&& self.table.wf()
        &&& self.table.occupied_ok(self.root_index, self.n_index, self.overflow_index)
    }

    /// The stored entry (hash and value) that the entry points at.
    pub closed spec fn entry(&self) -> (u64, V) {
        self.table.entry_at(self.root_index, self.n_index, self.overflow_index)
    }

    /// What the entry's specifications are in terms of its fields.
    pub(crate) proof fn lemma_fields(self)
        ensures
            self.valid() == ((*old(self.table)).wf() && (*old(self.table)).occupied_ok(
                self.root_index,
                self.n_index,
                self.overflow_index,
            )),
            self.entry() == (*old(self.table)).entry_at(self.root_index, self.n_index, self.overflow_index),
            self.table_ref() == self.table,
    {
    }

    /// Once the entry is dropped, its table is left as it is.
    pub proof fn lemma_dropped(self)
        requires
            has_resolved(self),
        ensures
            *final(self.table_ref()) == *self.table_ref(),
    {
    }

    /// A valid entry belongs to a well-formed table and points at one of its
    /// entries.
    pub proof fn lemma_valid(&self)
        requires
            self.valid(),
        ensures
            (*self.table_ref()).wf(),
            (*self.table_ref())@.count(self.entry()) > 0,
    {
        self.table.lemma_entry_at(self.root_index, self.n_index, self.overflow_index);
    }

    /// Gets a reference to the value in the entry.
    pub fn get(&self) -> (r: &V)
        requires
            self.valid(),
        ensures
            *r == self.entry().1,
    {
        match self.overflow_index {
            Some(overflow_index) => &self.table.overflow[overflow_index].1,
            None => match &self.table.buckets[self.root_index * LANES + self.n_index] {
                Some(e) => &e.1,
                None => vstd::pervasive::unreached(),
            },
        }
    }

    /// Gets a mutable reference to the value in the entry.
    pub fn get_mut(&mut self) -> (r: &mut V)
        requires
            old(self).valid(),
        ensures
            *r == old(self).entry().1,
            final(self).position() == old(self).position(),
            final(self).valid(),
            final(self).entry() == (old(self).entry().0, *final(r)),
            (*final(self).table_ref())@ =~= (*old(self).table_ref())@.remove(old(self).entry()).insert(
                (old(self).entry().0, *final(r)),
            ),
            (*final(self).table_ref()).spec_capacity() == (*old(self).table_ref()).spec_capacity(),
    {
        self.table.entry_value_mut(self.root_index, self.n_index, self.overflow_index)
    }

    /// Converts the entry into a mutable reference to the value, with the
    /// lifetime of the table borrow.
    pub fn into_mut(self) -> (r: &'a mut V)
        requires
            self.valid(),
        ensures
            *r == self.entry().1,
            (*final(self.table_ref())).wf(),
            (*final(self.table_ref()))@ =~= (*self.table_ref())@.remove(self.entry()).insert((self.entry().0, *final(r))),
            (*final(self.table_ref())).spec_capacity() == (*self.table_ref()).spec_capacity(),
            (*final(self.table_ref())).overflow_count() == (*self.table_ref()).overflow_count(),
    {
        let table = self.table;
        table.entry_value_mut(self.root_index, self.n_index, self.overflow_index)
    }

    /// Removes the entry from the table and returns its value.
    pub fn remove(self) -> (r: V)
        requires
            self.valid(),
        ensures
            r == self.entry().1,
            (*final(self.table_ref())).wf(),
            (*final(self.table_ref()))@ =~= (*self.table_ref())@.remove(self.entry()),
            (*final(self.table_ref())).spec_capacity() == (*self.table_ref()).spec_capacity(),
    {
        let table = self.table;
        proof {
            table.lemma_len();
        }
        match self.overflow_index {
            Some(overflow_index) => {
                proof {
                    lemma_seq_ms_swap_remove(table.overflow@, overflow_index as int);
                    lemma_seq_ms_update(table.overflow@, overflow_index as int, table.overflow@[overflow_index as int]);
                }
                table.populated = table.populated - 1;
                let value = table.overflow.swap_remove(overflow_index);
                value.1
            },
            None => {
                let index = self.root_index * LANES + self.n_index;
                proof {
                    lemma_slots_ms_update(table.buckets@, index as int, None);
                    lemma_slots_ms_len(table.buckets@.update(index as int, None));
                }
                table.populated = table.populated - 1;
                let value = table.take_slot(index);
                value.1
            },
        }
    }
}

impl<V> HashTable<V> {
    /// Grows the table when it holds as many entries as its capacity.
    fn maybe_resize_rehash(&mut self)
        requires
            old(self).wf(),
        ensures
            final(self).wf(),
            final(self)@ =~= old(self)@,
            final(self).populated == old(self).populated,
            final(self).max_root_mask != usize::MAX,
            final(self).spec_capacity() >= old(self).spec_capacity(),
            old(self).at_max_size() ==> final(self).at_max_size(),
            old(self).populated <= old(self).max_pop ==> final(self).populated < final(self).max_pop
                || final(self).at_max_size(),
            old(self)@.len() < HOP_RANGE * LANES ==> final(self).overflow@.len() <= old(self).overflow@.len(),
    {
        if self.populated >= self.max_pop || self.max_root_mask == usize::MAX {
            self.resize_rehash();
        }
    }

    /// Finds a free place for `hash`, growing the table if need be.
    fn do_vacant_lookup(&mut self, hash: u64) -> (r: VacantEntry<'_, V>)
        requires
            old(self).wf(),
            old(self).populated < usize::MAX,
        ensures
            r.valid(),
            r.hash == hash,
            (*r.table)@ =~= old(self)@,
            (*r.table).spec_capacity() >= old(self).spec_capacity(),
            old(self).at_max_size() ==> (*r.table).at_max_size(),
            r.is_overflow ==> (*r.table).neighborhood_full(hash) || (*r.table).at_max_size(),
            old(self)@.len() < HOP_RANGE * LANES ==> !r.is_overflow && (*r.table).overflow_count()
                <= old(self).overflow_count(),
            *final(r.table) == *final(self),
    {
        let slot = self.vacant_slot(hash);
        let hopmap_root = self.hopmap_index(hash);
        match slot {
            Some(i) => VacantEntry { n_index: i - hopmap_root * LANES, table: self, hopmap_root, hash, is_overflow: false },
            None => VacantEntry { table: self, hopmap_root, hash, n_index: 0, is_overflow: true },
        }
    }

    /// Gets the entry for a hash and an equality predicate, for insertion or
    /// in-place modification. The table grows first if it is at capacity.
    /// `rehash` is the hash function of the stored values; the table keeps
    /// each value's hash, so it never needs to recompute one.
    pub fn entry<E: Fn(&V) -> bool, R: Fn(&V) -> u64>(&mut self, hash: u64, eq: E, rehash: R) -> (r: Entry<'_, V>)
        requires
            old(self).wf(),
            old(self)@.len() < usize::MAX,
            forall|v: &V| eq.requires((v,)),
        ensures
            match r {
                Entry::Occupied(o) => {
                    &&& o.valid()
                    &&& (*o.table_ref())@ =~= old(self)@
                    &&& o.entry().0 == hash
                    &&& eq.ensures((&o.entry().1,), true)
                    &&& (*o.table_ref()).spec_capacity() >= old(self).spec_capacity()
                    &&& old(self)@.len() < HOP_RANGE * LANES ==> (*o.table_ref()).overflow_count() <= old(self).overflow_count()
                    &&& *final(o.table_ref()) == *final(self)
                },
                Entry::Vacant(v) => {
                    &&& v.valid()
                    &&& (*v.table_ref())@ =~= old(self)@
                    &&& v.spec_hash() == hash
                    &&& forall|x: V| old(self)@.count((hash, x)) > 0 ==> eq.ensures((&x,), false)
                    &&& (*v.table_ref()).spec_capacity() >= old(self).spec_capacity()
                    &&& v.in_overflow() ==> (*v.table_ref()).neighborhood_full(hash) || (*v.table_ref()).at_max_size()
                    &&& old(self)@.len() <= old(self).spec_capacity() ==> (*v.table_ref())@.len() < (*v.table_ref()).spec_capacity()
                        || (*v.table_ref()).at_max_size()
                    &&& old(self)@.len() < HOP_RANGE * LANES ==> !v.in_overflow() && (*v.table_ref()).overflow_count()
                        <= old(self).overflow_count()
                    &&& *final(v.table_ref()) == *final(self)
                },
            },
    {
        proof {
            self.lemma_len();
        }
        self.maybe_resize_rehash();
        proof {
            self.lemma_len();
        }
        self.entry_impl(hash, eq)
    }

    fn entry_impl<E: Fn(&V) -> bool>(&mut self, hash: u64, eq: E) -> (r: Entry<'_, V>)
        requires
            old(self).wf(),
            old(self).populated < usize::MAX,
            old(self).max_root_mask != usize::MAX,
            forall|v: &V| eq.requires((v,)),
        ensures
            match r {
                Entry::Occupied(o) => {
                    &&& o.valid()
                    &&& (*o.table_ref())@ =~= old(self)@
                    &&& o.entry().0 == hash
                    &&& eq.ensures((&o.entry().1,), true)
                    &&& (*o.table_ref()).spec_capacity() >= old(self).spec_capacity()
                    &&& (*o.table_ref()).overflow_count() == old(self).overflow_count()
                    &&& *final(o.table_ref()) == *final(self)
                },
                Entry::Vacant(v) => {
                    &&& v.valid()
                    &&& (*v.table_ref())@ =~= old(self)@
                    &&& v.spec_hash() == hash
                    &&& forall|x: V| old(self)@.count((hash, x)) > 0 ==> eq.ensures((&x,), false)
                    &&& (*v.table_ref()).spec_capacity() >= old(self).spec_capacity()
                    &&& v.in_overflow() ==> (*v.table_ref()).neighborhood_full(hash) || (*v.table_ref()).at_max_size()
                    &&& old(self).at_max_size() ==> (*v.table_ref()).at_max_size()
                    &&& old(self)@.len() < HOP_RANGE * LANES ==> !v.in_overflow() && (*v.table_ref()).overflow_count()
                        <= old(self).overflow_count()
                    &&& *final(v.table_ref()) == *final(self)
                },
            },
    {
        let hop_bucket = self.hopmap_index(hash);
        let index = self.search_neighborhood(hash, hop_bucket, &eq);
        if let Some(index) = index {
            proof {
                assert(slot_ok_at(self.tags@, self.buckets@, self.max_root_mask, index as int));
            }
            return Entry::Occupied(
                OccupiedEntry { n_index: index - hop_bucket * LANES, table: self, root_index: hop_bucket, overflow_index: None },
            );
        }
        if self.overflow.len() > 0 {
            if let Some(overflow_index) = self.search_overflow(hash, &eq) {
                return Entry::Occupied(
                    OccupiedEntry { n_index: 0, table: self, root_index: hop_bucket, overflow_index: Some(overflow_index) },
                );
            }
        }
        proof {
            self.lemma_absent(hash, &eq);
        }
        Entry::Vacant(self.do_vacant_lookup(hash))
    }
}

impl<'a, V> Entry<'a, V> {
    /// The entry points at a valid place of the table.
    pub open spec fn valid(&self) -> bool {
        match self {
            Entry::Vacant(v) => v.valid(),
            Entry::Occupied(o) => o.valid(),
        }
    }

    /// Inserts `default` if the entry is vacant, and returns a mutable
    /// reference to the entry's value.
    pub fn or_insert(self, default: V) -> (r: &'a mut V)
        requires
            self.valid(),
        ensures
            match self {
                Entry::Occupied(o) => {
                    &&& *r == o.entry().1
                    &&& (*final(o.table_ref())).wf()
                    &&& (*final(o.table_ref()))@ =~= (*o.table_ref())@.remove(o.entry()).insert((o.entry().0, *final(r)))
                    &&& (*final(o.table_ref())).spec_capacity() == (*o.table_ref()).spec_capacity()
                    &&& (*final(o.table_ref())).overflow_count() == (*o.table_ref()).overflow_count()
                },
                Entry::Vacant(v) => {
                    &&& *r == default
                    &&& (*final(v.table_ref())).wf()
                    &&& (*final(v.table_ref()))@ =~= (*v.table_ref())@.insert((v.spec_hash(), *final(r)))
                    &&& (*final(v.table_ref())).spec_capacity() == (*v.table_ref()).spec_capacity()
                    &&& !v.in_overflow() ==> (*final(v.table_ref())).overflow_count() == (*v.table_ref()).overflow_count()
                },
            },
    {
        match self {
            Entry::Occupied(entry) => entry.into_mut(),
            Entry::Vacant(entry) => entry.insert(default),
        }
    }

    /// Inserts the value computed by `default` if the entry is vacant, and
    /// returns a mutable reference to the entry's value.
    pub fn or_insert_with<F: FnOnce() -> V>(self, default: F) -> (r: &'a mut V)
        requires
            self.valid(),
            default.requires(()),
        ensures
            match self {
                Entry::Occupied(o) => {
                    &&& *r == o.entry().1
                    &&& (*final(o.table_ref())).wf()
                    &&& (*final(o.table_ref()))@ =~= (*o.table_ref())@.remove(o.entry()).insert((o.entry().0, *final(r)))
                    &&& (*final(o.table_ref())).spec_capacity() == (*o.table_ref()).spec_capacity()
                    &&& (*final(o.table_ref())).overflow_count() == (*o.table_ref()).overflow_count()
                },
                Entry::Vacant(v) => {
                    &&& default.ensures((), *r)
                    &&& (*final(v.table_ref())).wf()
                    &&& (*final(v.table_ref()))@ =~= (*v.table_ref())@.insert((v.spec_hash(), *final(r)))
                    &&& (*final(v.table_ref())).spec_capacity() == (*v.table_ref()).spec_capacity()
                    &&& !v.in_overflow() ==> (*final(v.table_ref())).overflow_count() == (*v.table_ref()).overflow_count()
                },
            },
    {
        match self {
            Entry::Occupied(entry) => entry.into_mut(),
            Entry::Vacant(entry) => entry.insert(default()),
        }
    }

    /// Applies `f` to the value of an occupied entry and returns a mutable
    /// reference to it; returns `None`, inserting nothing, for a vacant
    /// entry.
    pub fn and_modify<F: FnOnce(&mut V)>(self, f: F) -> (r: Option<&'a mut V>)
        requires
            self.valid(),
            forall|v: &mut V| f.requires((v,)),
        ensures
            match self {
                Entry::Occupied(o) => {
                    &&& r is Some
                    &&& exists|m: &mut V| *m == o.entry().1 && *final(m) == *(r->0) && #[trigger] f.ensures((m,), ())
                    &&& (*final(o.table_ref())).wf()
                    &&& (*final(o.table_ref()))@ =~= (*o.table_ref())@.remove(o.entry()).insert(
                        (o.entry().0, *final(r->0)),
                    )
                    &&& (*final(o.table_ref())).spec_capacity() == (*o.table_ref()).spec_capacity()
                },
                Entry::Vacant(v) => {
                    &&& r is None
                    &&& *final(v.table_ref()) == *v.table_ref()
                },
            },
    {
        match self {
            Entry::Occupied(entry) => {
                let value = entry.into_mut();
                f(value);
                Some(value)
            },
            Entry::Vacant(_) => None,
        }
    }

    /// Inserts `V::default()` if the entry is vacant, and returns a mutable
    /// reference to the entry's value.
    pub fn or_default(self) -> (r: &'a mut V) where V: Default
        requires
            self.valid(),
        ensures
            match self {
                Entry::Occupied(o) => {
                    &&& *r == o.entry().1
                    &&& (*final(o.table_ref())).wf()
                    &&& (*final(o.table_ref()))@ =~= (*o.table_ref())@.remove(o.entry()).insert((o.entry().0, *final(r)))
                    &&& (*final(o.table_ref())).spec_capacity() == (*o.table_ref()).spec_capacity()
                    &&& (*final(o.table_ref())).overflow_count() == (*o.table_ref()).overflow_count()
                },
                Entry::Vacant(v) => {
                    &&& call_ensures(V::default, (), *r)
                    &&& (*final(v.table_ref())).wf()
                    &&& (*final(v.table_ref()))@ =~= (*v.table_ref())@.insert((v.spec_hash(), *final(r)))
                    &&& (*final(v.table_ref())).spec_capacity() == (*v.table_ref()).spec_capacity()
                    &&& !v.in_overflow() ==> (*final(v.table_ref())).overflow_count() == (*v.table_ref()).overflow_count()
                },
            },
    {
        let default = || -> (d: V)
            ensures call_ensures(V::default, (), d),
        { V::default() };
        self.or_insert_with(default)
    }
}

/// A draining iterator over the values of a [`HashTable`], created by
/// [`HashTable::drain`]. The table is already empty when it is created.
pub struct Drain<'a, V> {
    items: Vec<V>,
    table: core::marker::PhantomData<&'a mut HashTable<V>>,
}

impl<'a, V> Drain<'a, V> {
    /// The values still to be yielded, in order.
    pub closed spec fn remaining(&self) -> Seq<V> {
        self.items@.reverse()
    }

    /// Yields the next drained value.
    pub fn next(&mut self) -> (r: Option<V>)
        ensures
            match r {
                Some(v) => {
                    &&& old(self).remaining().len() > 0
                    &&& v == old(self).remaining()[0]
                    &&& final(self).remaining() =~= old(self).remaining().drop_first()
                },
                None => {
                    &&& old(self).remaining().len() == 0
                    &&& final(self).remaining() == old(self).remaining()
                },
            },
    {
        proof {
            if self.items@.len() > 0 {
                assert(self.items@.reverse().drop_first() =~= self.items@.drop_last().reverse());
            }
        }
        self.items.pop()
    }
}

/// A consuming iterator over the values of a [`HashTable`], created by
/// [`HashTable::into_iter`].
pub struct IntoIter<V> {
    items: Vec<V>,
}

impl<V> IntoIter<V> {
    /// The values still to be yielded, in order.
    pub closed spec fn remaining(&self) -> Seq<V> {
        self.items@.reverse()
    }

    /// Yields the next value.
    pub fn next(&mut self) -> (r: Option<V>)
        ensures
            match r {
                Some(v) => {
                    &&& old(self).remaining().len() > 0
                    &&& v == old(self).remaining()[0]
                    &&& final(self).remaining() =~= old(self).remaining().drop_first()
                },
                None => {
                    &&& old(self).remaining().len() == 0
                    &&& final(self).remaining() == old(self).remaining()
                },
            },
    {
        proof {
            if self.items@.len() > 0 {
                assert(self.items@.reverse().drop_first() =~= self.items@.drop_last().reverse());
            }
        }
        self.items.pop()
    }
}

/// An iterator over the values of a [`HashTable`], created by
/// [`HashTable::iter`]: the slots in order, then the overflow list.
pub struct Iter<'a, V> {
    table: &'a HashTable<V>,
    bucket_index: usize,
    overflow_index: usize,
}

impl<'a, V> Iter<'a, V> {
    /// The iterator's position is within its table.
    pub closed spec fn valid(&self) -> bool {
        &&& self.table.wf()
        &&& self.bucket_index <= self.table.buckets@.len()
        &&& self.overflow_index <= self.table.overflow@.len()
    }

    /// The values still to be yielded, in order.
    pub closed spec fn remaining(&self) -> Seq<V> {
        slot_values(self.table.buckets@.subrange(self.bucket_index as int, self.table.buckets@.len() as int)).add(
            entry_values(self.table.overflow@.subrange(self.overflow_index as int, self.table.overflow@.len() as int)),
        )
    }

    /// Yields a reference to the next value.
    pub fn next(&mut self) -> (r: Option<&'a V>)
        requires
            old(self).valid(),
        ensures
            final(self).valid(),
            match r {
                Some(v) => {
                    &&& old(self).remaining().len() > 0
                    &&& *v == old(self).remaining()[0]
                    &&& final(self).remaining() =~= old(self).remaining().drop_first()
                },
                None => {
                    &&& old(self).remaining().len() == 0
                    &&& final(self).remaining() == old(self).remaining()
                },
            },
    {
        let table: &'a HashTable<V> = self.table;
        if table.is_empty() {
            proof {
                table.lemma_len();
                lemma_seq_ms_len(table.overflow@);
                crate::slot_model::lemma_slots_ms_empty_none(table.buckets@);
                lemma_slot_values_none(table.buckets@.subrange(self.bucket_index as int, table.buckets@.len() as int));
                assert(table.overflow@.subrange(self.overflow_index as int, table.overflow@.len() as int).len() == 0);
            }
            return None;
        }
        let total = table.buckets.len();
        while self.bucket_index < total
            invariant
                self.valid(),
                self.table == table,
                total == table.buckets@.len(),
                self.overflow_index == old(self).overflow_index,
                self.remaining() == old(self).remaining(),
            decreases total - self.bucket_index,
        {
            let i = self.bucket_index;
            proof {
                let sub = table.buckets@.subrange(i as int, total as int);
                lemma_slot_values_front(sub);
                assert(sub.drop_first() =~= table.buckets@.subrange(i + 1, total as int));
            }
            self.bucket_index = i + 1;
            match &table.buckets[i] {
                Some(e) => {
                    return Some(&e.1);
                },
                None => {},
            }
        }
        if self.overflow_index < table.overflow.len() {
            let j = self.overflow_index;
            proof {
                assert(table.buckets@.subrange(total as int, total as int) =~= Seq::<Option<(u64, V)>>::empty());
                assert(entry_values(table.overflow@.subrange(j as int, table.overflow@.len() as int)).drop_first()
                    =~= entry_values(table.overflow@.subrange(j + 1, table.overflow@.len() as int)));
            }
            self.overflow_index = j + 1;
            return Some(&table.overflow[j].1);
        }
        proof {
            assert(table.buckets@.subrange(total as int, total as int) =~= Seq::<Option<(u64, V)>>::empty());
        }
        None
    }
}

impl<V> HashTable<V> {
    /// The order in which [`drain`](HashTable::drain) yields the values: the
    /// slots in order, then the overflow list from its end.
    pub closed spec fn drain_order(&self) -> Seq<V> {
        slot_values(self.buckets@).add(entry_values(self.overflow@).reverse())
    }

    /// The entries of the table in storage order: those of the slots in
    /// order, then the overflow list.
    pub closed spec fn entries_in_order(&self) -> Seq<(u64, V)> {
        slot_entries(self.buckets@).add(self.overflow@)
    }

    /// The entries of the table in the order in which draining yields them:
    /// those of the slots in order, then the overflow list from its end.
    pub closed spec fn drain_entries(&self) -> Seq<(u64, V)> {
        slot_entries(self.buckets@).add(self.overflow@.reverse())
    }

    /// Iteration and draining yield the value of each stored entry exactly
    /// as often as the table holds the entry: their values are those of a
    /// sequence of entries whose multiset is the table's.
    pub proof fn lemma_values_are_entries(&self)
        ensures
            seq_ms(self.entries_in_order()) == self@,
            entry_values(self.entries_in_order()) == self.values(),
            seq_ms(self.drain_entries()) == self@,
            entry_values(self.drain_entries()) == self.drain_order(),
    {
        let b = self.buckets@;
        let o = self.overflow@;
        crate::slot_model::lemma_slot_entries(b);
        crate::slot_model::lemma_seq_ms_add(slot_entries(b), o);
        crate::slot_model::lemma_seq_ms_add(slot_entries(b), o.reverse());
        crate::slot_model::lemma_seq_ms_reverse(o);
        lemma_slot_values_entries(b);
        assert(entry_values(slot_entries(b).add(o)) =~= entry_values(slot_entries(b)).add(entry_values(o)));
        assert(entry_values(slot_entries(b).add(o.reverse())) =~= entry_values(slot_entries(b)).add(
            entry_values(o).reverse(),
        ));
    }

    /// There is one value per entry in [`values`](HashTable::values), and
    /// every entry's value is among them.
    pub proof fn lemma_values_cover(&self)
        requires
            self.wf(),
        ensures
            self.values().len() == self@.len(),
            forall|e: (u64, V)| self@.count(e) > 0 ==> self.values().contains(e.1),
            self.drain_order().len() == self@.len(),
            forall|e: (u64, V)| self@.count(e) > 0 ==> self.drain_order().contains(e.1),
    {
        lemma_slot_values_cover(self.buckets@);
        self.lemma_len();
        lemma_seq_ms_len(self.overflow@);
        let sv = slot_values(self.buckets@);
        let ov = entry_values(self.overflow@);
        assert forall|e: (u64, V)| self@.count(e) > 0 implies self.values().contains(e.1) && self.drain_order().contains(e.1) by {
            if slots_ms(self.buckets@).count(e) > 0 {
                let k = choose|k: int| 0 <= k < sv.len() && sv[k] == e.1;
                assert(self.values()[k] == e.1);
                assert(self.drain_order()[k] == e.1);
            } else {
                lemma_seq_ms_member(self.overflow@, e);
                let j = choose|j: int| 0 <= j < self.overflow@.len() && self.overflow@[j] == e;
                assert(self.values()[sv.len() + j] == e.1);
                assert(self.drain_order()[sv.len() + (ov.len() - 1 - j)] == e.1);
            }
        }
    }

    /// Every value that iteration or draining yields is the value of an
    /// entry of the table.
    pub proof fn lemma_values_members(&self)
        requires
            self.wf(),
        ensures
            forall|i: int| 0 <= i < self.values().len() ==> has_value(self@, #[trigger] self.values()[i]),
            forall|i: int| 0 <= i < self.drain_order().len() ==> has_value(self@, #[trigger] self.drain_order()[i]),
    {
        lemma_slot_values_members(self.buckets@);
        lemma_entry_values_members(self.overflow@);
        let sv = slot_values(self.buckets@);
        let ov = entry_values(self.overflow@);
        assert forall|i: int| 0 <= i < self.values().len() implies has_value(self@, #[trigger] self.values()[i]) by {
            if i < sv.len() {
                assert(has_value(slots_ms(self.buckets@), sv[i]));
                let h = choose|h: u64| slots_ms(self.buckets@).count((h, sv[i])) > 0;
                assert(self@.count((h, self.values()[i])) > 0);
            } else {
                let j = i - sv.len();
                assert(self.values()[i] == ov[j]);
                assert(has_value(seq_ms(self.overflow@), ov[j]));
                let h = choose|h: u64| seq_ms(self.overflow@).count((h, ov[j])) > 0;
                assert(self@.count((h, self.values()[i])) > 0);
            }
        }
        assert forall|i: int| 0 <= i < self.drain_order().len() implies has_value(self@, #[trigger] self.drain_order()[i]) by {
            if i < sv.len() {
                assert(has_value(slots_ms(self.buckets@), sv[i]));
                let h = choose|h: u64| slots_ms(self.buckets@).count((h, sv[i])) > 0;
                assert(self@.count((h, self.drain_order()[i])) > 0);
            } else {
                let j = ov.len() - 1 - (i - sv.len());
                assert(self.drain_order()[i] == ov[j]);
                assert(has_value(seq_ms(self.overflow@), ov[j]));
                let h = choose|h: u64| seq_ms(self.overflow@).count((h, ov[j])) > 0;
                assert(self@.count((h, self.drain_order()[i])) > 0);
            }
        }
    }

    /// Returns an iterator over the values of the table, in storage order.
    pub fn iter(&self) -> (r: Iter<'_, V>)
        requires
            self.wf(),
        ensures
            r.valid(),
            r.remaining() == self.values(),
    {
        let r = Iter { table: self, bucket_index: 0, overflow_index: 0 };
        proof {
            assert(self.buckets@.subrange(0, self.buckets@.len() as int) =~= self.buckets@);
            assert(self.overflow@.subrange(0, self.overflow@.len() as int) =~= self.overflow@);
        }
        r
    }

    /// Consumes the table and returns an iterator over its values, in the
    /// order that [`drain`](HashTable::drain) yields them.
    pub fn into_iter(self) -> (r: IntoIter<V>)
        requires
            self.wf(),
        ensures
            r.remaining() == self.drain_order(),
    {
        let mut table = self;
        let drained = table.drain();
        IntoIter { items: drained.items }
    }

    /// Removes every value from the table and returns an iterator that yields
    /// them. The table is left empty with its capacity.
    pub fn drain(&mut self) -> (r: Drain<'_, V>)
        requires
            old(self).wf(),
        ensures
            final(self).wf(),
            final(self)@ =~= Multiset::empty(),
            final(self).spec_capacity() == old(self).spec_capacity(),
            final(self).spec_slots() == old(self).spec_slots(),
            r.remaining() == old(self).drain_order(),
    {
        let ghost b0 = self.buckets@;
        let ghost o0 = self.overflow@;
        let total = self.buckets.len();
        let mut forward: Vec<V> = Vec::new();
        let mut i: usize = 0;
        proof {
            lemma_root_bound(0, self.max_root_mask);
            assert(b0.subrange(0, 0) =~= Seq::<Option<(u64, V)>>::empty());
        }
        while i < total
            invariant
                total == self.buckets@.len(),
                total == b0.len(),
                self.tags@.len() == total,
                i <= total,
                forall|j: int| 0 <= j < i ==> self.buckets@[j] is None,
                forall|j: int| 0 <= j < i ==> self.tags@[j] == EMPTY,
                forall|j: int| i <= j < total ==> self.buckets@[j] == b0[j],
                forward@ == slot_values(b0.subrange(0, i as int)),
                self.overflow@ == o0,
                self.max_root_mask == old(self).max_root_mask,
                self.max_pop == old(self).max_pop,
                total == slots_of(self.max_root_mask),
                self.hopmap@.len() == roots_of(self.max_root_mask) * 16,
            decreases total - i,
        {
            proof {
                assert(b0.subrange(0, i + 1).drop_last() =~= b0.subrange(0, i as int));
            }
            let slot = self.buckets[i].take();
            match slot {
                Some(e) => forward.push(e.1),
                None => {},
            }
            self.tags.set(i, EMPTY);
            i = i + 1;
        }
        proof {
            assert(b0.subrange(0, total as int) =~= b0);
        }
        let hops = self.hopmap.len();
        let mut k: usize = 0;
        while k < hops
            invariant
                hops == self.hopmap@.len(),
                k <= hops,
                forall|j: int| 0 <= j < k ==> self.hopmap@[j] == 0,
                total == self.buckets@.len(),
                self.tags@.len() == total,
                forall|j: int| 0 <= j < total ==> self.buckets@[j] is None,
                forall|j: int| 0 <= j < total ==> self.tags@[j] == EMPTY,
                self.max_root_mask == old(self).max_root_mask,
                self.max_pop == old(self).max_pop,
                total == slots_of(self.max_root_mask),
                hops == roots_of(self.max_root_mask) * 16,
                self.overflow@ == o0,
                forward@ == slot_values(b0),
            decreases hops - k,
        {
            self.hopmap.set(k, 0);
            k = k + 1;
        }
        proof {
            assert(o0.subrange(o0.len() as int, o0.len() as int) =~= Seq::<(u64, V)>::empty());
            assert(entry_values(o0.subrange(o0.len() as int, o0.len() as int)).reverse() =~= Seq::<V>::empty());
        }
        while self.overflow.len() > 0
            invariant
                total == self.buckets@.len(),
                self.tags@.len() == total,
                forall|j: int| 0 <= j < total ==> self.buckets@[j] is None,
                forall|j: int| 0 <= j < total ==> self.tags@[j] == EMPTY,
                forall|j: int| 0 <= j < hops ==> self.hopmap@[j] == 0,
                self.max_root_mask == old(self).max_root_mask,
                self.max_pop == old(self).max_pop,
                total == slots_of(self.max_root_mask),
                hops == roots_of(self.max_root_mask) * 16,
                hops == self.hopmap@.len(),
                self.overflow@ == o0.subrange(0, self.overflow@.len() as int),
                self.overflow@.len() <= o0.len(),
                forward@ == slot_values(b0).add(
                    entry_values(o0.subrange(self.overflow@.len() as int, o0.len() as int)).reverse(),
                ),
            decreases self.overflow@.len(),
        {
            let ghost m = self.overflow@.len();
            let e = self.overflow.pop();
            match e {
                Some(e) => {
                    proof {
                        assert(entry_values(o0.subrange(m - 1, o0.len() as int)).reverse() =~= entry_values(
                            o0.subrange(m as int, o0.len() as int),
                        ).reverse().push(e.1));
                    }
                    forward.push(e.1);
                },
                None => {},
            }
        }
        proof {
            assert(o0.subrange(0, o0.len() as int) =~= o0);
        }
        self.populated = 0;
        let ghost order = forward@;
        let mut items: Vec<V> = Vec::new();
        while forward.len() > 0
            invariant
                total == self.buckets@.len(),
                self.tags@.len() == total,
                forall|j: int| 0 <= j < total ==> self.buckets@[j] is None,
                forall|j: int| 0 <= j < total ==> self.tags@[j] == EMPTY,
                forall|j: int| 0 <= j < hops ==> self.hopmap@[j] == 0,
                self.max_root_mask == old(self).max_root_mask,
                self.max_pop == old(self).max_pop,
                total == slots_of(self.max_root_mask),
                hops == roots_of(self.max_root_mask) * 16,
                hops == self.hopmap@.len(),
                self.overflow@.len() == 0,
                forward@ == order.subrange(0, forward@.len() as int),
                forward@.len() <= order.len(),
                items@ == order.subrange(forward@.len() as int, order.len() as int).reverse(),
            decreases forward@.len(),
        {
            let ghost m = forward@.len();
            let x = forward.pop();
            match x {
                Some(x) => {
                    proof {
                        assert(order.subrange(m - 1, order.len() as int).reverse() =~= order.subrange(
                            m as int,
                            order.len() as int,
                        ).reverse().push(x));
                    }
                    items.push(x);
                },
                None => {},
            }
        }
        proof {
            let mask = self.max_root_mask;
            assert(order.subrange(0, order.len() as int) =~= order);
            assert(items@.reverse() =~= order);
            lemma_slots_ms_all_none(self.buckets@);
            assert(self.overflow@ =~= Seq::<(u64, V)>::empty());
            assert forall|i: int| 0 <= i < self.buckets@.len() implies #[trigger] slot_ok_at(
                self.tags@,
                self.buckets@,
                mask,
                i,
            ) by {}
            assert forall|r: int, n: int| 0 <= r < roots_of(mask) && 0 <= n < 16 implies #[trigger] hop_ok_at(
                self.hopmap@,
                self.buckets@,
                mask,
                r,
                n,
            ) by {
                lemma_cnt_none(self.buckets@, mask, r, (r + n) * 16, (r + n + 1) * 16);
            }
        }
        Drain { items, table: core::marker::PhantomData }
    }

    /// Reserves room for at least `additional` more elements: afterwards the
    /// capacity is at least `len() + additional`. Does nothing if it already
    /// is. `rehash` is the hash function of the stored values; the table keeps
    /// each value's hash, so it never needs to recompute one.
    pub fn reserve<R: Fn(&V) -> u64>(&mut self, additional: usize, rehash: R)
        requires
            old(self).wf(),
            old(self)@.len() + additional <= MAX_REQUEST,
        ensures
            final(self).wf(),
            final(self)@ =~= old(self)@,
            final(self).spec_capacity() >= old(self)@.len() + additional,
            final(self).spec_capacity() >= old(self).spec_capacity(),
            old(self)@.len() + additional <= old(self).spec_capacity() ==> *final(self) == *old(self),
            old(self)@.len() + additional > old(self).spec_capacity() ==> final(self).spec_capacity()
                >= spec_capacity_for(old(self)@.len() + additional),
            old(self)@.len() + additional > old(self).spec_capacity() && old(self).overflow_count() == 0 ==> {
                &&& final(self).spec_capacity() == spec_capacity_for(old(self)@.len() + additional)
                &&& final(self).spec_slots() == spec_slots_for(old(self)@.len() + additional)
            },
            old(self)@.len() + additional > old(self).spec_capacity() ==> {
                ||| final(self).spec_slots() == spec_slots_for(old(self)@.len() + additional)
                    && final(self).spec_capacity() == spec_capacity_for(old(self)@.len() + additional)
                ||| old(self).rebuild_blocked(spec_slots_for(old(self)@.len() + additional))
            },
            old(self)@.len() < HOP_RANGE * LANES ==> final(self).overflow_count() <= old(self).overflow_count(),
    {
        proof {
            self.lemma_len();
        }
        let required = self.populated.saturating_add(additional);
        if required > self.max_pop {
            let buckets_needed = (required + (LANES - 1)) / LANES;
            let new_capacity = Capacity::from(target_load_factor_inverse(buckets_needed));
            proof {
                lemma_capacity_for(required as int);
            }
            self.do_resize_rehash(new_capacity);
        }
    }

    /// The number of entries `shrink_to_fit` sizes the table for: every
    /// entry, the overflow entries counted once more.
    pub open spec fn shrink_request(&self) -> int {
        (self@.len() + self.overflow_count()) as int
    }

    /// Shrinks the capacity of the table as much as possible. An empty table
    /// gives up its allocation entirely and has capacity zero. Otherwise the
    /// table is rebuilt at the size made for `shrink_request()` entries when
    /// that size has fewer slots than the table, and left as it is if not.
    /// `rehash` is the hash function of the stored values; the table keeps
    /// each value's hash, so it never needs to recompute one.
    pub fn shrink_to_fit<R: Fn(&V) -> u64>(&mut self, rehash: R)
        requires
            old(self).wf(),
            2 * old(self)@.len() <= MAX_REQUEST,
        ensures
            final(self).wf(),
            final(self)@ =~= old(self)@,
            old(self)@.len() == 0 ==> final(self).spec_capacity() == 0 && final(self).spec_slots() == 0,
            old(self)@.len() > 0 && spec_slots_for(old(self).shrink_request()) >= old(self).spec_slots()
                ==> *final(self) == *old(self),
            old(self)@.len() > 0 && spec_slots_for(old(self).shrink_request()) < old(self).spec_slots() ==> {
                &&& final(self).spec_capacity() >= spec_capacity_for(old(self).shrink_request())
                &&& final(self).spec_capacity() >= final(self)@.len()
            },
            old(self)@.len() > 0 && spec_slots_for(old(self).shrink_request()) < old(self).spec_slots()
                && old(self).overflow_count() == 0 ==> {
                &&& final(self).spec_slots() == spec_slots_for(old(self).shrink_request())
                &&& final(self).spec_capacity() == spec_capacity_for(old(self).shrink_request())
                &&& final(self).spec_capacity() <= old(self).spec_capacity()
            },
            old(self)@.len() > 0 && spec_slots_for(old(self).shrink_request()) < old(self).spec_slots() ==> {
                ||| final(self).spec_slots() == spec_slots_for(old(self).shrink_request())
                    && final(self).spec_capacity() == spec_capacity_for(old(self).shrink_request())
                    && final(self).spec_capacity() <= old(self).spec_capacity()
                ||| old(self).rebuild_blocked(spec_slots_for(old(self).shrink_request()))
            },
            old(self).spec_capacity() >= old(self)@.len() ==> final(self).spec_capacity() >= final(self)@.len(),
            old(self)@.len() < HOP_RANGE * LANES ==> final(self).overflow_count() <= old(self).overflow_count(),
    {
        proof {
            self.lemma_len();
            lemma_seq_ms_len(self.overflow@);
            lemma_slots_ms_len(self.buckets@);
        }
        if self.populated == 0 && self.overflow.len() == 0 {
            if self.max_root_mask != usize::MAX {
                *self = Self::allocate(Capacity::from(0));
            }
            proof {
                vstd::multiset::lemma_multiset_empty_len(old(self)@);
            }
            return;
        }
        let required = self.populated + self.overflow.len();
        let buckets_needed = (required + (LANES - 1)) / LANES;
        let new_capacity = Capacity::from(target_load_factor_inverse(buckets_needed));
        proof {
            assert(new_capacity.base * LANES == spec_slots_for(required as int));
            assert(new_capacity.base > HOP_RANGE);
            assert(slots_of(new_capacity.spec_max_root_mask()) == new_capacity.base * LANES);
        }
        if new_capacity.max_root_mask() < self.max_root_mask {
            proof {
                lemma_capacity_for(required as int);
            }
            let ghost before = *self;
            self.do_resize_rehash(new_capacity);
            proof {
                if self.max_root_mask == new_capacity.spec_max_root_mask() {
                    lemma_load_monotone(self.max_root_mask, before.max_root_mask);
                }
            }
        }
    }
}

/// The slots with the value of slot `i` replaced by `w`, its hash kept.
pub open spec fn rewritten<V>(b: Seq<Option<(u64, V)>>, i: int, w: V) -> Seq<Option<(u64, V)>> {
    b.update(i, Some(((b[i]->0).0, w)))
}

/// The value of one slot, as a sequence of zero or one values.
pub open spec fn head_value<V>(e: Option<(u64, V)>) -> Seq<V> {
    match e {
        Some(x) => seq![x.1],
        None => Seq::empty(),
    }
}

/// The values held by a sequence of slots, in order.
pub open spec fn slot_values<V>(s: Seq<Option<(u64, V)>>) -> Seq<V>
    decreases s.len(),
{
    if s.len() == 0 {
        Seq::empty()
    } else {
        slot_values(s.drop_last()).add(head_value(s.last()))
    }
}

/// The values of the slots are the values of their entries.
pub proof fn lemma_slot_values_entries<V>(s: Seq<Option<(u64, V)>>)
    ensures
        slot_values(s) == entry_values(slot_entries(s)),
    decreases s.len(),
{
    if s.len() > 0 {
        lemma_slot_values_entries(s.drop_last());
        let tail: Seq<(u64, V)> = match s.last() {
            Some(e) => seq![e],
            None => Seq::empty(),
        };
        assert(entry_values(slot_entries(s.drop_last()).add(tail)) =~= entry_values(slot_entries(s.drop_last())).add(
            entry_values(tail),
        ));
        assert(entry_values(tail) =~= head_value(s.last()));
    } else {
        assert(slot_values(s) =~= entry_values(slot_entries(s)));
    }
}

/// The values of a list of entries, in order.
pub open spec fn entry_values<V>(s: Seq<(u64, V)>) -> Seq<V> {
    s.map_values(|e: (u64, V)| e.1)
}

/// Empty slots hold no values.
pub proof fn lemma_slot_values_none<V>(s: Seq<Option<(u64, V)>>)
    requires
        forall|i: int| 0 <= i < s.len() ==> s[i] is None,
    ensures
        slot_values(s) =~= Seq::<V>::empty(),
    decreases s.len(),
{
    if s.len() > 0 {
        lemma_slot_values_none(s.drop_last());
    }
}

/// The values of the slots read from the front.
pub proof fn lemma_slot_values_front<V>(s: Seq<Option<(u64, V)>>)
    requires
        s.len() > 0,
    ensures
        slot_values(s) =~= head_value(s[0]).add(slot_values(s.drop_first())),
    decreases s.len(),
{
    if s.len() > 1 {
        lemma_slot_values_front(s.drop_last());
        assert(s.drop_last().drop_first() =~= s.drop_first().drop_last());
        assert(s.drop_first().last() == s.last());
    } else {
        assert(s.drop_first() =~= Seq::<Option<(u64, V)>>::empty());
        assert(s.drop_last() =~= Seq::<Option<(u64, V)>>::empty());
    }
}

/// One value per stored entry, and every stored entry's value among them.
pub proof fn lemma_slot_values_cover<V>(s: Seq<Option<(u64, V)>>)
    ensures
        slot_values(s).len() == slots_ms(s).len(),
        forall|e: (u64, V)| slots_ms(s).count(e) > 0 ==> slot_values(s).contains(e.1),
    decreases s.len(),
{
    if s.len() > 0 {
        lemma_slot_values_cover(s.drop_last());
        assert forall|e: (u64, V)| slots_ms(s).count(e) > 0 implies slot_values(s).contains(e.1) by {
            if slots_ms(s.drop_last()).count(e) > 0 {
                let k = choose|k: int| 0 <= k < slot_values(s.drop_last()).len() && slot_values(s.drop_last())[k] == e.1;
                assert(slot_values(s)[k] == e.1);
            } else {
                assert(s.last() == Some(e));
                assert(slot_values(s)[slot_values(s).len() - 1] == e.1);
            }
        }
    }
}


/// Every value of the slots is the value of an entry they hold.
pub proof fn lemma_slot_values_members<V>(s: Seq<Option<(u64, V)>>)
    ensures
        forall|i: int| 0 <= i < slot_values(s).len() ==> has_value(slots_ms(s), #[trigger] slot_values(s)[i]),
    decreases s.len(),
{
    if s.len() > 0 {
        lemma_slot_values_members(s.drop_last());
        let sv = slot_values(s);
        let pre = slot_values(s.drop_last());
        assert forall|i: int| 0 <= i < sv.len() implies has_value(slots_ms(s), #[trigger] sv[i]) by {
            if i < pre.len() {
                assert(sv[i] == pre[i]);
                assert(has_value(slots_ms(s.drop_last()), pre[i]));
                let h = choose|h: u64| slots_ms(s.drop_last()).count((h, pre[i])) > 0;
                assert(slots_ms(s).count((h, sv[i])) > 0);
            } else {
                let e = s.last()->0;
                assert(sv[i] == e.1);
                assert(slots_ms(s).count((e.0, sv[i])) > 0);
            }
        }
    }
}

/// Every value of a list of entries is the value of one of them.
pub proof fn lemma_entry_values_members<V>(s: Seq<(u64, V)>)
    ensures
        forall|i: int| 0 <= i < entry_values(s).len() ==> has_value(seq_ms(s), #[trigger] entry_values(s)[i]),
{
    assert forall|i: int| 0 <= i < entry_values(s).len() implies has_value(seq_ms(s), #[trigger] entry_values(s)[i]) by {
        lemma_seq_ms_update(s, i, s[i]);
        assert(seq_ms(s).count((s[i].0, entry_values(s)[i])) > 0);
    }
}

} // verus!
