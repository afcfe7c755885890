use std::hash::BuildHasher;

use hop_hash::hash_map::Entry;
use hop_hash::hash_map::HashMap;
use hop_hash::hash_set::HashSet;
use hop_hash::hash_table::HashTable;
use hop_hash::hash_table::ProbeHistogram;
use siphasher::sip::SipHasher;

#[derive(Clone, Default)]
struct FixedSip;

impl BuildHasher for FixedSip {
    type Hasher = SipHasher;

    fn build_hasher(&self) -> Self::Hasher {
        SipHasher::new_with_keys(7, 11)
    }
}

fn map_of_squares(n: u64) -> HashMap<u64, u64, FixedSip> {
    let mut map = HashMap::with_hasher(FixedSip);
    for i in 0..n {
        map.insert(i, i * i);
    }
    map
}

#[test]
fn map_get_after_insert_reads_back_the_write() {
    let mut map = map_of_squares(10);
    assert_eq!(map.insert(3, 100), Some(9));
    assert_eq!(map.get(&3), Some(&100));
    for i in 0..10u64 {
        if i != 3 {
            assert_eq!(map.get(&i), Some(&(i * i)));
        }
    }
}

#[test]
fn map_remove_undoes_insert() {
    let mut map = map_of_squares(5);
    let before: Vec<(u64, u64)> = {
        let mut v = Vec::new();
        let mut it = map.iter();
        while let Some((k, x)) = it.next() {
            v.push((*k, *x));
        }
        v.sort();
        v
    };
    assert_eq!(map.insert(77, 1), None);
    assert_eq!(map.len(), 6);
    assert_eq!(map.remove(&77), Some(1));
    assert_eq!(map.len(), 5);
    let mut after: Vec<(u64, u64)> = Vec::new();
    let mut it = map.iter();
    while let Some((k, x)) = it.next() {
        after.push((*k, *x));
    }
    after.sort();
    assert_eq!(before, after);
}

#[test]
fn map_insert_twice_keeps_one_entry() {
    let mut map = HashMap::with_hasher(FixedSip);
    assert_eq!(map.insert("k", 1), None);
    assert_eq!(map.insert("k", 2), Some(1));
    assert_eq!(map.len(), 1);
    assert_eq!(map.get(&"k"), Some(&2));
}

#[test]
fn map_len_counts_keys() {
    let map = map_of_squares(300);
    assert_eq!(map.len(), 300);
    let mut count = 0;
    let mut keys = map.keys();
    while keys.next().is_some() {
        count += 1;
    }
    assert_eq!(count, 300);
}

#[test]
fn map_hashed_functions_are_exact() {
    let mut map: HashMap<u64, &str, FixedSip> = HashMap::with_hasher(FixedSip);
    assert_eq!(map.insert_hashed(5, 1, "a"), None);
    assert_eq!(map.insert_hashed(6, 1, "b"), None);
    assert_eq!(map.len(), 2);
    assert_eq!(map.get_hashed(5, &1), Some(&"a"));
    assert_eq!(map.get_hashed(6, &1), Some(&"b"));
    assert_eq!(map.get_hashed(7, &1), None);
    assert!(map.contains_key_hashed(5, &1));
    assert_eq!(map.get_key_value_hashed(6, &1), Some((&1, &"b")));
    if let Some(v) = map.get_mut_hashed(5, &1) {
        *v = "c";
    }
    assert_eq!(map.remove_hashed(5, &1), Some("c"));
    assert_eq!(map.remove_entry_hashed(6, &1), Some((1, "b")));
    assert!(map.is_empty());
}

#[test]
fn map_keys_and_values_follow_iteration() {
    let map = map_of_squares(20);
    let mut pairs = Vec::new();
    let mut it = map.iter();
    while let Some((k, v)) = it.next() {
        pairs.push((*k, *v));
    }
    let mut keys = Vec::new();
    let mut ks = map.keys();
    while let Some(k) = ks.next() {
        keys.push(*k);
    }
    let mut values = Vec::new();
    let mut vs = map.values();
    while let Some(v) = vs.next() {
        values.push(*v);
    }
    assert_eq!(keys, pairs.iter().map(|p| p.0).collect::<Vec<_>>());
    assert_eq!(values, pairs.iter().map(|p| p.1).collect::<Vec<_>>());
}

#[test]
fn map_into_iter_yields_every_pair() {
    let map = map_of_squares(40);
    let mut pairs = Vec::new();
    let mut it = map.into_iter();
    while let Some(p) = it.next() {
        pairs.push(p);
    }
    pairs.sort();
    assert_eq!(pairs, (0..40u64).map(|i| (i, i * i)).collect::<Vec<_>>());
}

#[test]
fn map_retain_keeps_what_the_predicate_accepts() {
    let mut map = map_of_squares(100);
    let mut calls = 0;
    map.retain(|k, v| {
        calls += 1;
        k % 3 == 0 && *v < 2500
    });
    assert_eq!(calls, 100);
    let mut kept = Vec::new();
    let mut ks = map.keys();
    while let Some(k) = ks.next() {
        kept.push(*k);
    }
    kept.sort();
    assert_eq!(kept, (0..50u64).filter(|k| k % 3 == 0).collect::<Vec<_>>());
}

#[test]
fn map_retain_mut_changes_kept_values() {
    let mut map = map_of_squares(10);
    map.retain_mut(|k, v| {
        *v += 1;
        k % 2 == 1
    });
    assert_eq!(map.len(), 5);
    for k in (1..10u64).step_by(2) {
        assert_eq!(map.get(&k), Some(&(k * k + 1)));
    }
    assert_eq!(map.get(&2), None);
}

#[test]
fn map_extract_if_takes_out_what_the_predicate_accepts() {
    let mut map = map_of_squares(30);
    let mut taken = Vec::new();
    let mut it = map.extract_if(|k, v| {
        *v += 1000;
        k % 5 == 0
    });
    while let Some(kv) = it.next() {
        taken.push(kv);
    }
    taken.sort();
    assert_eq!(taken, (0..30u64).filter(|k| k % 5 == 0).map(|k| (k, k * k + 1000)).collect::<Vec<_>>());
    assert_eq!(map.len(), 24);
    assert_eq!(map.get(&1), Some(&1001));
    assert_eq!(map.get(&5), None);
}

#[test]
fn map_extract_if_removes_without_iterating() {
    let mut map = map_of_squares(10);
    let _ = map.extract_if(|k, _| *k < 4);
    assert_eq!(map.len(), 6);
    assert!(!map.contains_key(&0));
    assert!(map.contains_key(&4));
}

#[test]
fn map_values_mut_and_iter_mut_write_in_place() {
    let mut map = map_of_squares(8);
    let mut vs = map.values_mut();
    while let Some(v) = vs.next() {
        *v += 1;
    }
    let mut it = map.iter_mut();
    while let Some((k, v)) = it.next() {
        *v += *k;
    }
    for k in 0..8u64 {
        assert_eq!(map.get(&k), Some(&(k * k + 1 + k)));
    }
}

#[test]
fn map_entry_and_modify_on_vacant_inserts_nothing() {
    let mut map: HashMap<u64, u64, FixedSip> = HashMap::with_hasher(FixedSip);
    match map.entry(9).and_modify(|v| *v += 1) {
        Entry::Vacant(v) => assert_eq!(v.into_key(), 9),
        Entry::Occupied(_) => panic!("the map is empty"),
    }
    assert!(map.is_empty());
}

#[test]
fn map_clear_keeps_capacity_and_shrink_releases_it() {
    let mut map = map_of_squares(100);
    let capacity = map.capacity();
    map.clear();
    assert_eq!(map.len(), 0);
    assert_eq!(map.capacity(), capacity);
    map.shrink_to_fit();
    assert_eq!(map.capacity(), 0);
}

#[test]
fn map_clone_is_independent() {
    let map = map_of_squares(50);
    let mut copy = map.clone();
    copy.insert(1, 0);
    assert_eq!(map.get(&1), Some(&1));
    assert_eq!(copy.get(&1), Some(&0));
    assert_eq!(copy.len(), 50);
}

#[test]
fn set_contains_after_insert_and_insert_is_idempotent() {
    let mut set = HashSet::with_hasher(FixedSip);
    assert!(set.insert(4));
    assert!(set.contains(&4));
    assert!(!set.insert(4));
    assert_eq!(set.len(), 1);
}

#[test]
fn set_remove_undoes_insert() {
    let mut set = HashSet::with_hasher(FixedSip);
    for i in 0..10 {
        set.insert(i);
    }
    assert!(set.insert(99));
    assert!(set.remove(&99));
    assert_eq!(set.len(), 10);
    assert!(!set.contains(&99));
}

#[test]
fn set_hashed_functions_are_exact() {
    let mut set: HashSet<u64, FixedSip> = HashSet::with_hasher(FixedSip);
    assert!(set.insert_hashed(1, 10));
    assert!(set.insert_hashed(2, 10));
    assert!(!set.insert_hashed(1, 10));
    assert_eq!(set.len(), 2);
    assert!(set.contains_hashed(2, &10));
    assert!(!set.contains_hashed(3, &10));
    assert_eq!(set.get_hashed(1, &10), Some(&10));
    assert_eq!(set.replace_hashed(1, 10), Some(10));
    assert_eq!(set.take_hashed(2, &10), Some(10));
    assert!(set.remove_hashed(1, &10));
    assert!(set.is_empty());
}

#[test]
fn set_replace_returns_the_stored_value() {
    let mut set = HashSet::with_hasher(FixedSip);
    assert_eq!(set.replace(String::from("x")), None);
    assert_eq!(set.replace(String::from("x")), Some(String::from("x")));
    assert_eq!(set.len(), 1);
}

#[test]
fn set_retain_and_extract_if() {
    let mut set = HashSet::with_hasher(FixedSip);
    for i in 0..40u32 {
        set.insert(i);
    }
    set.retain(|v| v % 2 == 0);
    assert_eq!(set.len(), 20);
    let mut taken = Vec::new();
    let mut it = set.extract_if(|v| *v >= 30);
    while let Some(v) = it.next() {
        taken.push(v);
    }
    taken.sort();
    assert_eq!(taken, vec![30, 32, 34, 36, 38]);
    assert_eq!(set.len(), 15);
    assert!(set.contains(&28));
    assert!(!set.contains(&30));
}

#[test]
fn set_into_iter_and_symmetric_difference_of_equal_sets() {
    let mut a = HashSet::with_hasher(FixedSip);
    let mut b = HashSet::with_hasher(FixedSip);
    for i in 0..10 {
        a.insert(i);
        b.insert(i);
    }
    let mut it = a.symmetric_difference(&b);
    assert!(it.next().is_none());
    let mut all = Vec::new();
    let mut into = a.into_iter();
    while let Some(v) = into.next() {
        all.push(v);
    }
    all.sort();
    assert_eq!(all, (0..10).collect::<Vec<_>>());
}

#[test]
fn table_probe_histogram_counts_every_slot_entry() {
    let mut table: HashTable<u64> = HashTable::with_capacity(0);
    for k in 0..2000u64 {
        let hash = k.wrapping_mul(0x9E37_79B9_7F4A_7C15);
        table.entry(hash, |v| *v == k, |v| v.wrapping_mul(0x9E37_79B9_7F4A_7C15)).or_insert(k);
    }
    let histogram = table.probe_histogram();
    let in_slots: usize = histogram.bucket_distribution.iter().sum();
    let by_count: usize = histogram.probe_length_by_count[..16].iter().sum();
    assert_eq!(in_slots, table.occupied_slots());
    assert_eq!(by_count, table.occupied_slots());
    assert_eq!(histogram.probe_length_by_count[16], table.overflow_len());
    assert_eq!(table.occupied_slots() + table.overflow_len(), 2000);
    assert_eq!(histogram.populated(), 2000);
    assert_eq!(histogram.buckets() * 16, table.slot_count());
}

#[test]
fn table_empty_histogram_is_zero() {
    let table: HashTable<u64> = HashTable::with_capacity(0);
    let histogram = table.probe_histogram();
    assert_eq!(histogram.populated(), 0);
    assert_eq!(histogram.buckets(), 16);
    assert!(histogram.probe_length_by_bucket.iter().all(|c| *c == 0));
    assert!(histogram.bucket_distribution.iter().all(|c| *c == 0));
    assert_eq!(table.slot_count(), 0);
}

#[test]
fn table_overflow_holds_what_one_neighborhood_cannot() {
    let mut table: HashTable<u32> = HashTable::with_capacity(16);
    for i in 0..300u32 {
        table.entry(0, |v| *v == i, |_| 0).or_insert(i);
    }
    assert_eq!(table.len(), 300);
    assert_eq!(table.occupied_slots(), 256);
    assert_eq!(table.overflow_len(), 44);
    for i in 0..300u32 {
        assert_eq!(table.find(0, |v| *v == i), Some(&i));
    }
    assert_eq!(table.remove(0, |v| *v == 299), Some(299));
    assert_eq!(table.len(), 299);
}

#[test]
fn table_entry_and_modify_and_or_default() {
    let mut table: HashTable<(u8, u32)> = HashTable::with_capacity(4);
    assert!(table.entry(3, |e| e.0 == 3, |_| 3).and_modify(|e| e.1 += 1).is_none());
    *table.entry(3, |e| e.0 == 3, |_| 3).or_default() = (3, 5);
    let modified = table.entry(3, |e| e.0 == 3, |_| 3).and_modify(|e| e.1 += 1);
    assert_eq!(modified.map(|e| e.1), Some(6));
    assert_eq!(table.len(), 1);
}

#[test]
fn table_reserve_and_with_capacity_bound_the_capacity() {
    let mut table: HashTable<u64> = HashTable::with_capacity(37);
    assert!(table.capacity() >= 37);
    table.reserve(1000, |v| *v);
    assert!(table.capacity() >= 1000);
    assert!(table.is_empty());
}

#[test]
fn default_hasher_basic_usage() {
    let mut map: hop_hash::HashMap<&str, &str> = hop_hash::HashMap::new();
    map.insert("key1", "value1");
    map.insert("key2", "value2");

    assert_eq!(map.get(&"key1"), Some(&"value1"));
    map.remove(&"key2");
    assert_eq!(map.get(&"key2"), None);

    let mut set: hop_hash::HashSet<u32> = hop_hash::HashSet::new();
    assert!(set.insert(1));
    assert!(set.contains(&1));
}

fn set_of(values: &[u64]) -> HashSet<u64, FixedSip> {
    let mut set = HashSet::with_hasher(FixedSip);
    for v in values {
        set.insert(*v);
    }
    set
}

fn items_of(set: &HashSet<u64, FixedSip>) -> Vec<u64> {
    let mut out = Vec::new();
    let mut it = set.iter();
    while let Some(v) = it.next() {
        out.push(*v);
    }
    out
}

fn hashes_of(set: &HashSet<u64, FixedSip>) -> Vec<u64> {
    items_of(set).iter().map(|v| FixedSip.hash_one(v)).collect()
}

fn shifted(hashes: &[u64]) -> Vec<u64> {
    hashes.iter().map(|h| h.wrapping_add(1)).collect()
}

#[test]
fn set_relations_hashed_follow_the_given_hashes() {
    let a = set_of(&[2, 3]);
    let b = set_of(&[2, 3, 4]);
    let c = set_of(&[7, 8]);
    assert!(a.is_subset_hashed(&b, &hashes_of(&a)));
    assert!(!a.is_subset_hashed(&b, &shifted(&hashes_of(&a))));
    assert!(!b.is_subset_hashed(&a, &hashes_of(&b)));
    assert!(b.is_superset_hashed(&a, &hashes_of(&a)));
    assert!(!b.is_superset_hashed(&a, &shifted(&hashes_of(&a))));
    assert!(!a.is_disjoint_hashed(&b, &hashes_of(&a)));
    assert!(a.is_disjoint_hashed(&b, &shifted(&hashes_of(&a))));
    assert!(a.is_disjoint_hashed(&c, &hashes_of(&a)));
    assert!(c.is_disjoint_hashed(&a, &hashes_of(&c)));
    assert!(a.is_disjoint(&c) && c.is_disjoint(&a));
    assert!(a.is_subset(&b) && !b.is_subset(&a) && b.is_superset(&a));
}

#[test]
fn set_iterators_hashed_follow_the_given_hashes() {
    let a = set_of(&[1, 2, 3]);
    let b = set_of(&[2, 3, 4]);

    let mut found = Vec::new();
    let mut it = a.intersection_hashed(&b, hashes_of(&a));
    while let Some(v) = it.next() {
        found.push(*v);
    }
    found.sort();
    assert_eq!(found, vec![2, 3]);

    let mut it = a.intersection_hashed(&b, shifted(&hashes_of(&a)));
    assert!(it.next().is_none());

    let mut missing = Vec::new();
    let mut it = a.difference_hashed(&b, hashes_of(&a));
    while let Some(v) = it.next() {
        missing.push(*v);
    }
    assert_eq!(missing, vec![1]);

    let mut all = Vec::new();
    let mut it = a.difference_hashed(&b, shifted(&hashes_of(&a)));
    while let Some(v) = it.next() {
        all.push(*v);
    }
    assert_eq!(all, items_of(&a));

    let mut union = Vec::new();
    let mut it = a.union_hashed(&b, hashes_of(&b));
    while let Some(v) = it.next() {
        union.push(*v);
    }
    union.sort();
    assert_eq!(union, vec![1, 2, 3, 4]);

    let mut sym = Vec::new();
    let mut it = a.symmetric_difference_hashed(&b, hashes_of(&a), hashes_of(&b));
    while let Some(v) = it.next() {
        sym.push(*v);
    }
    sym.sort();
    assert_eq!(sym, vec![1, 4]);
}

#[test]
fn table_reserve_grows_to_the_size_made_for_the_request() {
    let mut table: HashTable<u64> = HashTable::with_capacity(1);
    assert_eq!(table.capacity(), 250);
    for k in [1u64, 2, 3] {
        table.entry(k, |v| *v == k, |v| *v).or_insert(k);
    }
    table.reserve(10, |v| *v);
    assert_eq!(table.capacity(), 250);
    table.reserve(1000, |v| *v);
    assert_eq!(table.capacity(), 2119);
    assert_eq!(table.slot_count(), 2304);
    assert_eq!(table.len(), 3);
    for k in [1u64, 2, 3] {
        assert_eq!(table.find(k, |v| *v == k), Some(&k));
    }
    assert!(table.find(4, |v| *v == 4).is_none());
}

#[test]
fn map_shrink_rebuilds_at_the_size_made_for_its_entries() {
    let mut map: HashMap<i32, &str, FixedSip> = HashMap::with_capacity_and_hasher(1000, FixedSip);
    map.insert(1, "one");
    map.insert(2, "two");
    assert!(map.capacity() >= 1000);
    map.shrink_to_fit();
    assert_eq!(map.capacity(), 250);
    assert_eq!(map.len(), 2);
    assert_eq!(map.get(&1), Some(&"one"));
    assert_eq!(map.get(&2), Some(&"two"));
    map.shrink_to_fit();
    assert_eq!(map.capacity(), 250);
    assert_eq!(map.len(), 2);
}

#[test]
fn table_len_stays_within_capacity_while_inserting() {
    let mut table: HashTable<u64> = HashTable::with_capacity(0);
    for k in 0..5000u64 {
        table.entry(k, |v| *v == k, |v| *v).or_insert(k);
        assert!(table.len() <= table.capacity());
    }
    assert_eq!(table.len(), 5000);
}

#[test]
fn map_from_iter_and_extend_insert_in_order() {
    let mut map: HashMap<u64, u64, FixedSip> = HashMap::from_iter(vec![(1, 10), (2, 20), (1, 30)]);
    assert_eq!(map.len(), 2);
    assert_eq!(map.get(&1), Some(&30));
    assert_eq!(map.get(&2), Some(&20));
    map.extend(vec![(3, 300), (2, 200)]);
    assert_eq!(map.len(), 3);
    assert_eq!(map.get(&2), Some(&200));
    assert_eq!(map.get(&3), Some(&300));
}

#[test]
fn map_extend_hashed_uses_the_given_hashes() {
    let mut map: HashMap<u64, u64, FixedSip> = HashMap::with_hasher(FixedSip);
    map.extend_hashed(&vec![5, 5, 6], vec![(1, 10), (1, 11), (1, 12)]);
    assert_eq!(map.len(), 2);
    assert_eq!(map.get_hashed(5, &1), Some(&11));
    assert_eq!(map.get_hashed(6, &1), Some(&12));
    assert_eq!(map.get_hashed(7, &1), None);
}

#[test]
fn set_from_iter_and_extend() {
    let mut set: HashSet<u64, FixedSip> = HashSet::from_iter(vec![4, 5, 4]);
    assert_eq!(set.len(), 2);
    set.extend(vec![5, 6]);
    assert_eq!(set.len(), 3);
    assert!(set.contains(&4) && set.contains(&5) && set.contains(&6));
    let mut hashed: HashSet<u64, FixedSip> = HashSet::with_hasher(FixedSip);
    hashed.extend_hashed(&vec![1, 2, 1], vec![9, 9, 9]);
    assert_eq!(hashed.len(), 2);
    assert!(hashed.contains_hashed(1, &9));
    assert!(hashed.contains_hashed(2, &9));
    assert!(!hashed.contains_hashed(3, &9));
}

#[test]
fn histogram_bar_lengths_scale_to_the_largest_count() {
    let mut table: HashTable<u64> = HashTable::with_capacity(0);
    for k in 0..500u64 {
        let hash = k.wrapping_mul(0x9E37_79B9_7F4A_7C15);
        table.entry(hash, |v| *v == k, |v| v.wrapping_mul(0x9E37_79B9_7F4A_7C15)).or_insert(k);
    }
    let histogram = table.probe_histogram();
    let max = histogram.max_count();
    let all = histogram
        .probe_length_by_bucket
        .iter()
        .chain(histogram.probe_length_by_count.iter())
        .chain(histogram.bucket_distribution.iter());
    assert_eq!(Some(max), all.copied().max());
    assert_eq!(ProbeHistogram::bar_eighths(max, max), 480);
    assert_eq!(ProbeHistogram::bar_eighths(0, max), 0);
    assert_eq!(ProbeHistogram::bar_eighths(1, 3), 160);
    assert_eq!(ProbeHistogram::bar_eighths(1, 7), 69);
    assert_eq!(ProbeHistogram::bar_eighths(0, 0), 0);
}

#[test]
fn map_iter_mut_and_values_mut_write_back() {
    let mut map: HashMap<u64, String, FixedSip> = HashMap::with_hasher(FixedSip);
    map.insert(1, "one".to_string());
    map.insert(2, "two".to_string());
    map.insert(3, "three".to_string());
    let mut it = map.iter_mut();
    while let Some((_k, v)) = it.next() {
        v.push('!');
    }
    assert_eq!(map.get(&1), Some(&"one!".to_string()));
    assert_eq!(map.get(&2), Some(&"two!".to_string()));
    assert_eq!(map.get(&3), Some(&"three!".to_string()));
    assert_eq!(map.len(), 3);

    let mut nums: HashMap<u64, u64, FixedSip> = HashMap::with_hasher(FixedSip);
    nums.insert(1, 10);
    nums.insert(2, 20);
    nums.insert(3, 30);
    let mut values = nums.values_mut();
    while let Some(v) = values.next() {
        *v *= 2;
    }
    assert_eq!(nums.get(&1), Some(&20));
    assert_eq!(nums.get(&2), Some(&40));
    assert_eq!(nums.get(&3), Some(&60));
    assert_eq!(nums.len(), 3);
}

#[test]
fn table_tags_and_neighbor_counts_describe_the_slots() {
    let mut table: HashTable<u64> = HashTable::with_capacity(100);
    for k in 0..60u64 {
        let hash = k.wrapping_mul(0x9E37_79B9_7F4A_7C15);
        table.entry(hash, |v| *v == k, |v| v.wrapping_mul(0x9E37_79B9_7F4A_7C15)).or_insert(k);
    }
    let tags = table.slot_tags();
    assert_eq!(tags.len(), table.slot_count());
    let filled = tags.iter().filter(|t| **t != hop_hash::layout::EMPTY).count();
    assert_eq!(filled, table.occupied_slots());
    let counts = table.neighbor_counts();
    assert_eq!(counts.len() + 16 * 16, table.slot_count() / 16 * 16);
    let total: usize = counts.iter().map(|c| *c as usize).sum();
    assert_eq!(total, table.occupied_slots());
}
