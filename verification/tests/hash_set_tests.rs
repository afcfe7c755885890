use std::hash::BuildHasher;

use hop_hash::hash_set::HashSet;
use rand::rngs::OsRng;
use rand::TryRngCore;
use siphasher::sip::SipHasher;

#[derive(Clone)]
struct SipHashBuilder {
    k1: u64,
    k2: u64,
}

impl BuildHasher for SipHashBuilder {
    type Hasher = SipHasher;

    fn build_hasher(&self) -> Self::Hasher {
        SipHasher::new_with_keys(self.k1, self.k2)
    }
}

impl Default for SipHashBuilder {
    fn default() -> Self {
        Self {
            k1: OsRng.try_next_u64().unwrap_or(0),
            k2: OsRng.try_next_u64().unwrap_or(0),
        }
    }
}

fn values_of<T: Copy, S>(set: &HashSet<T, S>) -> Vec<T> {
    let mut iter = set.iter();
    let mut out = Vec::new();
    while let Some(v) = iter.next() {
        out.push(*v);
    }
    out
}

#[test]
fn hash_set_test_new_and_with_hasher() {
    let set: HashSet<i32, SipHashBuilder> = HashSet::new();
    assert!(set.is_empty());
    assert_eq!(set.len(), 0);

    let set2 = HashSet::<i32, _>::with_hasher(SipHashBuilder::default());
    assert!(set2.is_empty());
    assert_eq!(set2.len(), 0);
}

#[test]
fn hash_set_test_with_capacity() {
    let set: HashSet<i32, SipHashBuilder> = HashSet::with_capacity(100);
    assert!(set.capacity() >= 100);
    assert!(set.is_empty());

    let set2 = HashSet::<i32, _>::with_capacity_and_hasher(200, SipHashBuilder::default());
    assert!(set2.capacity() >= 200);
    assert!(set2.is_empty());
}

#[test]
fn test_insert_and_contains() {
    let mut set = HashSet::with_hasher(SipHashBuilder::default());

    assert!(set.insert(1));
    assert_eq!(set.len(), 1);
    assert!(!set.is_empty());
    assert!(set.contains(&1));

    assert!(!set.insert(1));
    assert_eq!(set.len(), 1);
    assert!(set.contains(&1));

    assert!(set.insert(2));
    assert_eq!(set.len(), 2);
    assert!(set.contains(&1));
    assert!(set.contains(&2));
    assert!(!set.contains(&3));
}

#[test]
fn hash_set_test_remove() {
    let mut set = HashSet::with_hasher(SipHashBuilder::default());
    set.insert(1);
    set.insert(2);
    set.insert(3);

    assert!(set.remove(&2));
    assert_eq!(set.len(), 2);
    assert!(set.contains(&1));
    assert!(!set.contains(&2));
    assert!(set.contains(&3));

    assert!(!set.remove(&2));
    assert!(!set.remove(&4));
    assert_eq!(set.len(), 2);
}

#[test]
fn test_take() {
    let mut set = HashSet::with_hasher(SipHashBuilder::default());
    set.insert(1);
    set.insert(2);

    assert_eq!(set.take(&1), Some(1));
    assert_eq!(set.len(), 1);
    assert!(!set.contains(&1));
    assert!(set.contains(&2));

    assert_eq!(set.take(&1), None);
    assert_eq!(set.take(&3), None);
}

#[test]
fn test_get() {
    let mut set = HashSet::with_hasher(SipHashBuilder::default());
    set.insert(42);

    assert_eq!(set.get(&42), Some(&42));
    assert_eq!(set.get(&1), None);
}

#[test]
fn hash_set_test_clear() {
    let mut set = HashSet::with_hasher(SipHashBuilder::default());
    set.insert(1);
    set.insert(2);
    set.insert(3);

    assert_eq!(set.len(), 3);
    set.clear();
    assert_eq!(set.len(), 0);
    assert!(set.is_empty());
    assert!(!set.contains(&1));
    assert!(!set.contains(&2));
    assert!(!set.contains(&3));
}

#[test]
fn hash_set_test_reserve() {
    let mut set = HashSet::<i32, _>::with_hasher(SipHashBuilder::default());
    let initial_capacity = set.capacity();

    set.reserve(1000);
    assert!(set.capacity() >= initial_capacity + 1000);
}

#[test]
fn test_iter() {
    let mut set = HashSet::with_hasher(SipHashBuilder::default());
    set.insert(1);
    set.insert(2);
    set.insert(3);

    let values: Vec<i32> = values_of(&set);
    assert_eq!(values.len(), 3);
    assert!(values.contains(&1));
    assert!(values.contains(&2));
    assert!(values.contains(&3));
}

#[test]
fn test_into_iterator() {
    let mut set = HashSet::with_hasher(SipHashBuilder::default());
    set.insert(1);
    set.insert(2);
    set.insert(3);

    let mut values: Vec<i32> = Vec::new();
    let mut iter = set.iter();
    while let Some(v) = iter.next() {
        values.push(*v);
    }
    assert_eq!(values.len(), 3);
    assert!(values.contains(&1));
    assert!(values.contains(&2));
    assert!(values.contains(&3));
}

#[test]
fn hash_set_test_drain() {
    let mut set = HashSet::with_hasher(SipHashBuilder::default());
    set.insert(1);
    set.insert(2);
    set.insert(3);

    let mut drained: Vec<i32> = Vec::new();
    let mut drain = set.drain();
    while let Some(v) = drain.next() {
        drained.push(v);
    }
    assert_eq!(drained.len(), 3);
    assert!(set.is_empty());

    assert!(drained.contains(&1));
    assert!(drained.contains(&2));
    assert!(drained.contains(&3));
}

#[test]
fn hash_set_test_multiple_insertions() {
    let mut set = HashSet::with_hasher(SipHashBuilder::default());

    for i in 0..100 {
        assert!(set.insert(i));
    }

    assert_eq!(set.len(), 100);

    for i in 0..100 {
        assert!(set.contains(&i));
    }

    for i in 0..100 {
        assert!(!set.insert(i));
    }

    assert_eq!(set.len(), 100);
}

#[test]
fn hash_set_test_collision_handling() {
    let mut set = HashSet::with_hasher(SipHashBuilder::default());

    for i in 0..1000 {
        assert!(set.insert(i));
    }

    assert_eq!(set.len(), 1000);

    for i in 0..1000 {
        assert!(set.contains(&i));
    }

    for i in (0..1000).step_by(2) {
        assert!(set.remove(&i));
    }

    assert_eq!(set.len(), 500);

    for i in (1..1000).step_by(2) {
        assert!(set.contains(&i));
    }

    for i in (0..1000).step_by(2) {
        assert!(!set.contains(&i));
    }
}

#[test]
fn test_string_values() {
    let mut set = HashSet::with_hasher(SipHashBuilder::default());

    assert!(set.insert("hello".to_string()));
    assert!(set.insert("world".to_string()));
    assert!(set.insert("rust".to_string()));

    assert!(set.contains(&"hello".to_string()));
    assert!(set.contains(&"world".to_string()));
    assert!(set.contains(&"rust".to_string()));
    assert!(!set.contains(&"missing".to_string()));

    assert_eq!(set.len(), 3);

    assert!(!set.insert("hello".to_string()));
    assert_eq!(set.len(), 3);
}

#[test]
fn hash_set_test_default_trait() {
    let set: HashSet<i32, SipHashBuilder> = HashSet::default();
    assert!(set.is_empty());
    assert_eq!(set.len(), 0);
}

#[test]
fn hash_set_test_complex_values() {
    let mut set = HashSet::with_hasher(SipHashBuilder::default());

    let vec1 = vec![1, 2, 3];
    let vec2 = vec![4, 5, 6];
    let vec3 = vec![1, 2, 3];

    assert!(set.insert(vec1.clone()));
    assert!(set.insert(vec2.clone()));
    assert!(!set.insert(vec3));

    assert_eq!(set.len(), 2);
    assert!(set.contains(&vec1));
    assert!(set.contains(&vec2));
}

#[test]
fn test_edge_cases() {
    let mut set = HashSet::with_hasher(SipHashBuilder::default());

    let empty_set = HashSet::<i32, _>::with_capacity_and_hasher(0, SipHashBuilder::default());
    assert_eq!(empty_set.len(), 0);

    assert!(!set.remove(&1));
    assert_eq!(set.take(&1), None);

    assert_eq!(set.get(&1), None);

    set.clear();
    assert!(set.is_empty());

    let mut iter_count = 0;
    let mut iter = set.iter();
    while iter.next().is_some() {
        iter_count += 1;
    }
    assert_eq!(iter_count, 0);

    let mut drain_count = 0;
    let mut drain = set.drain();
    while drain.next().is_some() {
        drain_count += 1;
    }
    assert_eq!(drain_count, 0);
}

#[test]
fn test_insert_remove_cycle() {
    let mut set = HashSet::with_hasher(SipHashBuilder::default());

    for _ in 0..10 {
        for i in 0..50 {
            assert!(set.insert(i));
        }
        assert_eq!(set.len(), 50);

        for i in 0..50 {
            assert!(set.remove(&i));
        }
        assert_eq!(set.len(), 0);
        assert!(set.is_empty());
    }
}

#[test]
fn test_large_values() {
    let mut set = HashSet::with_hasher(SipHashBuilder::default());

    for i in 0..100 {
        let large_string = "x".repeat(1000) + &i.to_string();
        assert!(set.insert(large_string.clone()));
        assert!(set.contains(&large_string))
    }

    assert_eq!(set.len(), 100);
}

#[test]
fn test_numeric_types() {
    let mut u8_set = HashSet::with_hasher(SipHashBuilder::default());
    let mut u64_set = HashSet::with_hasher(SipHashBuilder::default());
    let mut i32_set = HashSet::with_hasher(SipHashBuilder::default());

    for i in 0u8..=255u8 {
        u8_set.insert(i);
    }
    assert_eq!(u8_set.len(), 256);

    for i in 0u64..100u64 {
        u64_set.insert(i * 1_000_000_000);
    }
    assert_eq!(u64_set.len(), 100);

    for i in -50i32..50i32 {
        i32_set.insert(i);
    }
    assert_eq!(i32_set.len(), 100);
}

#[test]
fn test_is_disjoint() {
    let mut a = HashSet::with_hasher(SipHashBuilder::default());
    a.insert(1);
    a.insert(2);
    a.insert(3);

    let mut b = HashSet::with_hasher(SipHashBuilder::default());
    b.insert(4);
    b.insert(5);
    b.insert(6);

    assert!(a.is_disjoint(&b));
    assert!(b.is_disjoint(&a));

    b.insert(2);
    assert!(!a.is_disjoint(&b));
    assert!(!b.is_disjoint(&a));
}

#[test]
fn test_is_subset() {
    let mut a = HashSet::with_hasher(SipHashBuilder::default());
    a.insert(1);
    a.insert(2);

    let mut b = HashSet::with_hasher(SipHashBuilder::default());
    b.insert(1);
    b.insert(2);
    b.insert(3);

    assert!(a.is_subset(&b));
    assert!(!b.is_subset(&a));
    assert!(a.is_subset(&a));
}

#[test]
fn test_is_superset() {
    let mut a = HashSet::with_hasher(SipHashBuilder::default());
    a.insert(1);
    a.insert(2);
    a.insert(3);

    let mut b = HashSet::with_hasher(SipHashBuilder::default());
    b.insert(1);
    b.insert(2);

    assert!(a.is_superset(&b));
    assert!(!b.is_superset(&a));
    assert!(a.is_superset(&a));
}

#[test]
fn test_union() {
    let mut a = HashSet::with_hasher(SipHashBuilder::default());
    a.insert(1);
    a.insert(2);
    a.insert(3);

    let mut b = HashSet::with_hasher(SipHashBuilder::default());
    b.insert(3);
    b.insert(4);
    b.insert(5);

    let mut union: Vec<i32> = Vec::new();
    let mut it = a.union(&b);
    while let Some(v) = it.next() {
        union.push(*v);
    }
    assert_eq!(union.len(), 5);
    assert!(union.contains(&1));
    assert!(union.contains(&2));
    assert!(union.contains(&3));
    assert!(union.contains(&4));
    assert!(union.contains(&5));
}

#[test]
fn test_intersection() {
    let mut a = HashSet::with_hasher(SipHashBuilder::default());
    a.insert(1);
    a.insert(2);
    a.insert(3);

    let mut b = HashSet::with_hasher(SipHashBuilder::default());
    b.insert(2);
    b.insert(3);
    b.insert(4);

    let mut intersection: Vec<i32> = Vec::new();
    let mut it = a.intersection(&b);
    while let Some(v) = it.next() {
        intersection.push(*v);
    }
    assert_eq!(intersection.len(), 2);
    assert!(intersection.contains(&2));
    assert!(intersection.contains(&3));
}

#[test]
fn test_difference() {
    let mut a = HashSet::with_hasher(SipHashBuilder::default());
    a.insert(1);
    a.insert(2);
    a.insert(3);

    let mut b = HashSet::with_hasher(SipHashBuilder::default());
    b.insert(2);
    b.insert(3);
    b.insert(4);

    let mut difference: Vec<i32> = Vec::new();
    let mut it = a.difference(&b);
    while let Some(v) = it.next() {
        difference.push(*v);
    }
    assert_eq!(difference.len(), 1);
    assert!(difference.contains(&1));
}

#[test]
fn test_symmetric_difference() {
    let mut a = HashSet::with_hasher(SipHashBuilder::default());
    a.insert(1);
    a.insert(2);
    a.insert(3);

    let mut b = HashSet::with_hasher(SipHashBuilder::default());
    b.insert(2);
    b.insert(3);
    b.insert(4);

    let mut sym_diff: Vec<i32> = Vec::new();
    let mut it = a.symmetric_difference(&b);
    while let Some(v) = it.next() {
        sym_diff.push(*v);
    }
    assert_eq!(sym_diff.len(), 2);
    assert!(sym_diff.contains(&1));
    assert!(sym_diff.contains(&4));
}
