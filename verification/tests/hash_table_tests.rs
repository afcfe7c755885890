use std::hash::Hasher;

use hop_hash::hash_table::Entry;
use hop_hash::hash_table::HashTable;
use rand::rngs::OsRng;
use rand::TryRngCore;
use siphasher::sip::SipHasher;

struct HashState {
    k0: u64,
    k1: u64,
}

impl HashState {
    fn default() -> Self {
        let mut rng = OsRng;
        Self {
            k0: rng.try_next_u64().unwrap(),
            k1: rng.try_next_u64().unwrap(),
        }
    }

    fn build_hasher(&self) -> SipHasher {
        SipHasher::new_with_keys(self.k0, self.k1)
    }
}

#[derive(Debug, PartialEq, Eq, Clone)]
struct Item {
    key: u64,
    value: i32,
}

fn hash_key(state: &HashState, key: u64) -> u64 {
    let mut h = state.build_hasher();
    h.write_u64(key);
    h.finish()
}

#[derive(Debug, PartialEq, Eq, Clone)]
struct StringItem {
    key: String,
    value: i32,
}

fn hash_string_key(state: &HashState, key: &str) -> u64 {
    let mut h = state.build_hasher();
    h.write(key.as_bytes());
    h.finish()
}

fn drain_all<V>(table: &mut HashTable<V>) -> Vec<V> {
    let mut drain = table.drain();
    let mut out = Vec::new();
    while let Some(v) = drain.next() {
        out.push(v);
    }
    out
}

fn iter_all<V>(table: &HashTable<V>) -> Vec<&V> {
    let mut iter = table.iter();
    let mut out = Vec::new();
    while let Some(v) = iter.next() {
        out.push(v);
    }
    out
}

#[test]
fn insert_and_find() {
    let state = HashState::default();
    let mut table: HashTable<Item> = HashTable::with_capacity(0);
    for k in 0..32u64 {
        let hash = hash_key(&state, k);
        match table.entry(hash, |v: &Item| v.key == k, |v| hash_key(&state, v.key)) {
            Entry::Vacant(v) => {
                v.insert(Item {
                    key: k,
                    value: (k as i32) * 2,
                });
                assert_eq!(
                    table.find(hash, |v| v.key == k),
                    Some(&Item {
                        key: k,
                        value: (k as i32) * 2
                    })
                );
            }
            Entry::Occupied(_) => panic!("unexpected occupied on first insert"),
        }
    }
    assert_eq!(table.len(), 32);
    for k in 0..32u64 {
        let hash = hash_key(&state, k);
        assert_eq!(
            table.find(hash, |v| v.key == k),
            Some(&Item {
                key: k,
                value: (k as i32) * 2
            })
        );
    }

    let miss_hash = hash_key(&state, 999);
    assert!(table.find(miss_hash, |v| v.key == 999).is_none());
}

#[test]
fn duplicate_entry_is_occupied() {
    let state = HashState::default();
    let mut table: HashTable<Item> = HashTable::with_capacity(0);
    let k = 42u64;
    let hash = hash_key(&state, k);

    match table.entry(hash, |v| v.key == k, |v| hash_key(&state, v.key)) {
        Entry::Vacant(v) => {
            v.insert(Item { key: k, value: 7 });
        }
        Entry::Occupied(_) => panic!("should be vacant first time"),
    }

    match table.entry(hash, |v| v.key == k, |v| hash_key(&state, v.key)) {
        Entry::Occupied(mut occ) => {
            let prev_value = occ.get().value;
            *occ.get_mut() = Item { key: k, value: 11 };
            assert_eq!(prev_value, 7);
        }
        Entry::Vacant(_) => panic!("should be occupied: {}#{:02X}", k, hash),
    }
    let found = table.find(hash, |v| v.key == k).unwrap();
    assert_eq!(found.value, 11);
}

#[test]
fn find_mut_and_modify() {
    let state = HashState::default();
    let mut table: HashTable<Item> = HashTable::with_capacity(0);
    for k in 0..5u64 {
        let hash = hash_key(&state, k);
        match table.entry(hash, |v| v.key == k, |v| hash_key(&state, v.key)) {
            Entry::Vacant(v) => {
                v.insert(Item { key: k, value: 1 });
            }
            _ => unreachable!(),
        }
    }

    for k in 0..5u64 {
        let hash = hash_key(&state, k);
        if let Some(v) = table.find_mut(hash, |v| v.key == k) {
            v.value += 9;
        }
    }
    for k in 0..5u64 {
        let hash = hash_key(&state, k);
        let v = table.find(hash, |v| v.key == k).unwrap();
        assert_eq!(v.value, 10);
    }
}

#[test]
fn remove_items() {
    let state = HashState::default();
    let mut table: HashTable<Item> = HashTable::with_capacity(0);
    for k in 0..8u64 {
        let hash = hash_key(&state, k);
        match table.entry(hash, |v| v.key == k, |v| hash_key(&state, v.key)) {
            Entry::Vacant(v) => {
                v.insert(Item {
                    key: k,
                    value: k as i32,
                });
            }
            _ => unreachable!(),
        }
    }
    assert_eq!(table.len(), 8);
    for k in [0u64, 3, 7] {
        let hash = hash_key(&state, k);
        let removed = table.remove(hash, |v| v.key == k).expect("should remove");
        assert_eq!(removed.key, k);
    }
    assert_eq!(table.len(), 5);

    let hash = hash_key(&state, 1000);
    assert!(table.remove(hash, |v| v.key == 1000,).is_none());
}

#[test]
fn insert_many() {
    let state = HashState::default();
    let mut table: HashTable<Item> = HashTable::with_capacity(0);
    for k in 0..100000u64 {
        let hash = hash_key(&state, k);
        match table.entry(hash, |v| v.key == k, |v| hash_key(&state, v.key)) {
            Entry::Vacant(v) => {
                v.insert(Item {
                    key: k,
                    value: k as i32,
                });

                assert_eq!(
                    table.find(hash, |v| v.key == k),
                    Some(&Item {
                        key: k,
                        value: k as i32
                    })
                );
            }
            _ => unreachable!(),
        }
    }

    assert_eq!(table.len(), 100000);
    for k in 0..100000u64 {
        let hash = hash_key(&state, k);

        assert_eq!(
            table.find(hash, |v| v.key == k),
            Some(&Item {
                key: k,
                value: k as i32
            })
        );
    }
}

#[test]
fn explicit_collision() {
    let mut table: HashTable<Item> = HashTable::with_capacity(0);
    let hash = 0;
    for k in 0..65u64 {
        match table.entry(hash, |v| v.key == k, |_| 0) {
            Entry::Vacant(v) => {
                v.insert(Item {
                    key: k,
                    value: k as i32,
                });
            }
            _ => unreachable!(),
        }
    }

    assert_eq!(table.len(), 65);
    for k in 0..65u64 {
        assert_eq!(
            table.find(hash, |v| v.key == k),
            Some(&Item {
                key: k,
                value: k as i32
            })
        );
    }
}

#[test]
fn iter_and_drain() {
    let state = HashState::default();
    let mut table: HashTable<Item> = HashTable::with_capacity(0);
    for k in 10..20u64 {
        let hash = hash_key(&state, k);
        match table.entry(hash, |v| v.key == k, |v| hash_key(&state, v.key)) {
            Entry::Vacant(v) => {
                v.insert(Item {
                    key: k,
                    value: (k as i32) + 1,
                });
            }
            _ => unreachable!(),
        }
    }
    let collected: Vec<u64> = iter_all(&table).into_iter().map(|v| v.key).collect();
    assert_eq!(collected.len(), 10);
    for k in 10..20u64 {
        assert!(collected.contains(&k));
    }

    let drained: Vec<Item> = drain_all(&mut table);
    assert_eq!(drained.len(), 10);
    assert_eq!(table.len(), 0);

    for k in 10..20u64 {
        let hash = hash_key(&state, k);
        assert!(table.find(hash, |v| v.key == k).is_none());
    }
}

#[test]
fn insert_and_find_string_keys() {
    let state = HashState::default();
    let mut table: HashTable<StringItem> = HashTable::with_capacity(0);
    let keys = ["hello", "world", "foo", "bar", "baz"];

    for (i, k) in keys.iter().enumerate() {
        let hash = hash_string_key(&state, k);
        match table.entry(
            hash,
            |v: &StringItem| v.key == *k,
            |v| hash_string_key(&state, &v.key),
        ) {
            Entry::Vacant(v) => {
                v.insert(StringItem {
                    key: k.to_string(),
                    value: i as i32,
                });
            }
            Entry::Occupied(_) => panic!("unexpected occupied on first insert"),
        }
    }

    assert_eq!(table.len(), keys.len());

    for (i, k) in keys.iter().enumerate() {
        let hash = hash_string_key(&state, k);
        assert_eq!(
            table.find(hash, |v| v.key == *k),
            Some(&StringItem {
                key: k.to_string(),
                value: i as i32
            })
        );
    }

    let miss_hash = hash_string_key(&state, "not found");
    assert!(table.find(miss_hash, |v| v.key == "not found").is_none());
}

#[test]
fn remove_string_keys() {
    let state = HashState::default();
    let mut table: HashTable<StringItem> = HashTable::with_capacity(0);
    let keys = ["a", "b", "c", "d", "e"];
    for (i, k) in keys.iter().enumerate() {
        let hash = hash_string_key(&state, k);
        match table.entry(hash, |v| v.key == *k, |v| hash_string_key(&state, &v.key)) {
            Entry::Vacant(v) => {
                v.insert(StringItem {
                    key: k.to_string(),
                    value: i as i32,
                });
            }
            Entry::Occupied(_) => unreachable!(),
        }
    }

    assert_eq!(table.len(), 5);
    let hash_c = hash_string_key(&state, "c");
    let removed = table.remove(hash_c, |v| v.key == "c").unwrap();
    assert_eq!(removed.key, "c");
    assert_eq!(removed.value, 2);
    assert_eq!(table.len(), 4);

    let hash_a = hash_string_key(&state, "a");
    assert!(table.find(hash_a, |v| v.key == "a").is_some());
    let hash_c_2 = hash_string_key(&state, "c");
    assert!(table.find(hash_c_2, |v| v.key == "c").is_none());
}

#[test]
fn iter_string_keys() {
    let state = HashState::default();
    let mut table: HashTable<StringItem> = HashTable::with_capacity(0);
    let keys = ["a", "b", "c"];
    for (i, k) in keys.iter().enumerate() {
        let hash = hash_string_key(&state, k);
        table
            .entry(hash, |v| v.key == *k, |v| hash_string_key(&state, &v.key))
            .or_insert(StringItem {
                key: k.to_string(),
                value: i as i32,
            });
    }

    let mut found_keys = iter_all(&table)
        .into_iter()
        .map(|item| item.key.clone())
        .collect::<Vec<_>>();
    found_keys.sort();
    assert_eq!(found_keys, vec!["a", "b", "c"]);
}

#[test]
fn drain_string_keys() {
    let state = HashState::default();
    let mut table: HashTable<StringItem> = HashTable::with_capacity(0);
    let keys = ["a", "b", "c"];
    for (i, k) in keys.iter().enumerate() {
        let hash = hash_string_key(&state, k);
        table
            .entry(hash, |v| v.key == *k, |v| hash_string_key(&state, &v.key))
            .or_insert(StringItem {
                key: k.to_string(),
                value: i as i32,
            });
    }

    let drained_items: Vec<String> = drain_all(&mut table).into_iter().map(|item| item.key).collect();
    assert_eq!(table.len(), 0);
    assert_eq!(drained_items.len(), 3);
    assert!(drained_items.contains(&"a".to_string()));
    assert!(drained_items.contains(&"b".to_string()));
    assert!(drained_items.contains(&"c".to_string()));
}

#[test]
fn entry_or_insert_with() {
    let state = HashState::default();
    let mut table: HashTable<StringItem> = HashTable::with_capacity(0);
    let key = "unique_key";
    let hash = hash_string_key(&state, key);

    let value_ref = table
        .entry(hash, |v| v.key == key, |v| hash_string_key(&state, &v.key))
        .or_insert_with(|| StringItem {
            key: key.to_string(),
            value: 42,
        });
    assert_eq!(value_ref.value, 42);

    let existing_ref = table
        .entry(hash, |v| v.key == key, |v| hash_string_key(&state, &v.key))
        .or_insert_with(|| StringItem {
            key: key.to_string(),
            value: 100,
        });
    assert_eq!(existing_ref.value, 42);

    assert_eq!(table.len(), 1);
}

#[test]
fn entry_into_mut() {
    let state = HashState::default();
    let mut table = HashTable::with_capacity(10);
    let hash = hash_string_key(&state, "key");
    table
        .entry(
            hash,
            |s: &String| s == "key",
            |v| hash_string_key(&state, v),
        )
        .or_insert("key".to_string());

    let value_ref = match table.entry(
        hash,
        |s: &String| s == "key",
        |v| hash_string_key(&state, v),
    ) {
        Entry::Occupied(entry) => entry.into_mut(),
        Entry::Vacant(_) => unreachable!("Entry should be occupied"),
    };
    *value_ref = "new_value".to_string();
}

#[test]
fn test_clone() {
    let state = HashState::default();
    let mut original: HashTable<StringItem> = HashTable::with_capacity(10);

    let test_data = [
        ("hello", 1),
        ("world", 2),
        ("rust", 3),
        ("clone", 4),
        ("test", 5),
    ];

    for (key, value) in test_data.iter() {
        let hash = hash_string_key(&state, key);
        original
            .entry(hash, |v| v.key == *key, |v| hash_string_key(&state, &v.key))
            .or_insert(StringItem {
                key: key.to_string(),
                value: *value,
            });
    }

    let cloned = original.clone();

    assert_eq!(original.len(), cloned.len());
    assert_eq!(cloned.len(), test_data.len());

    for (key, expected_value) in test_data.iter() {
        let hash = hash_string_key(&state, key);

        let original_item = original.find(hash, |v| v.key == *key).unwrap();
        assert_eq!(original_item.value, *expected_value);

        let cloned_item = cloned.find(hash, |v| v.key == *key).unwrap();
        assert_eq!(cloned_item.value, *expected_value);
        assert_eq!(cloned_item.key, *key);
    }

    let hash = hash_string_key(&state, "hello");
    if let Some(item) = original.find_mut(hash, |v| v.key == "hello") {
        item.value = 999;
    }

    let original_hello = original.find(hash, |v| v.key == "hello").unwrap();
    assert_eq!(original_hello.value, 999);

    let cloned_hello = cloned.find(hash, |v| v.key == "hello").unwrap();
    assert_eq!(cloned_hello.value, 1);
}

#[test]
fn test_clone_empty_table() {
    let original: HashTable<Item> = HashTable::with_capacity(10);
    let cloned = original.clone();

    assert_eq!(original.len(), 0);
    assert_eq!(cloned.len(), 0);
    assert!(original.is_empty());
    assert!(cloned.is_empty());
}

#[test]
fn test_clone_with_overflow() {
    let mut table: HashTable<Item> = HashTable::with_capacity(16);

    let hash = 0u64;

    let num_items = 200u64;
    for k in 0..num_items {
        match table.entry(hash, |v| v.key == k, |_| 0) {
            Entry::Vacant(v) => {
                v.insert(Item {
                    key: k,
                    value: k as i32,
                });
            }
            _ => unreachable!(),
        }
    }

    let cloned = table.clone();

    assert_eq!(table.len(), cloned.len());
    assert_eq!(table.len(), num_items as usize);

    for k in 0..num_items {
        let original_item = table.find(hash, |v| v.key == k).unwrap();
        let cloned_item = cloned.find(hash, |v| v.key == k).unwrap();

        assert_eq!(original_item.key, k);
        assert_eq!(cloned_item.key, k);
        assert_eq!(original_item.value, k as i32);
        assert_eq!(cloned_item.value, k as i32);
    }

    if let Some(item) = table.find_mut(hash, |v| v.key == 0) {
        item.value = -999;
    }

    let original_item_0 = table.find(hash, |v| v.key == 0).unwrap();
    let cloned_item_0 = cloned.find(hash, |v| v.key == 0).unwrap();

    assert_eq!(original_item_0.value, -999);
    assert_eq!(cloned_item_0.value, 0);
}

#[test]
fn test_shrink_to_fit_empty_table() {
    let mut table: HashTable<Item> = HashTable::with_capacity(100);
    let initial_capacity = table.capacity();

    assert!(initial_capacity > 0);
    assert_eq!(table.len(), 0);

    table.shrink_to_fit(|_| panic!("should not be called"));

    assert_eq!(table.len(), 0);
    assert_eq!(table.capacity(), 0);
}

#[test]
fn test_shrink_to_fit_with_items() {
    let state = HashState::default();
    let mut table: HashTable<Item> = HashTable::with_capacity(1000);

    for i in 0..50 {
        let hash = hash_key(&state, i);
        table
            .entry(hash, |v| v.key == i, |v| hash_key(&state, v.key))
            .or_insert(Item {
                key: i,
                value: i as i32,
            });
    }

    let initial_capacity = table.capacity();
    assert_eq!(table.len(), 50);
    assert!(initial_capacity >= 1000);

    table.shrink_to_fit(|k| hash_key(&state, k.key));

    assert_eq!(table.len(), 50);
    assert!(table.capacity() < initial_capacity);
    assert!(table.capacity() >= 50);

    for i in 0..50 {
        let hash = hash_key(&state, i);
        let found = table.find(hash, |v| v.key == i);
        assert!(found.is_some());
        assert_eq!(found.unwrap().value, i as i32);
    }
}

#[test]
fn test_shrink_to_fit_after_clear() {
    let state = HashState::default();
    let mut table: HashTable<Item> = HashTable::with_capacity(1000);

    for i in 0..100 {
        let hash = hash_key(&state, i);
        table
            .entry(hash, |v| v.key == i, |v| hash_key(&state, v.key))
            .or_insert(Item {
                key: i,
                value: i as i32,
            });
    }

    assert_eq!(table.len(), 100);
    let capacity_with_items = table.capacity();

    table.clear();
    assert_eq!(table.len(), 0);
    assert_eq!(table.capacity(), capacity_with_items);

    table.shrink_to_fit(|k| hash_key(&state, k.key));

    assert_eq!(table.len(), 0);
    assert_eq!(table.capacity(), 0);
}

#[test]
fn test_shrink_to_fit_after_removals() {
    let state = HashState::default();
    let mut table: HashTable<Item> = HashTable::with_capacity(1000);

    for i in 0..200 {
        let hash = hash_key(&state, i);
        table
            .entry(hash, |v| v.key == i, |v| hash_key(&state, v.key))
            .or_insert(Item {
                key: i,
                value: i as i32,
            });
    }

    assert_eq!(table.len(), 200);
    let initial_capacity = table.capacity();

    for i in 0..190 {
        let hash = hash_key(&state, i);
        table.remove(hash, |v| v.key == i);
    }

    assert_eq!(table.len(), 10);
    assert_eq!(table.capacity(), initial_capacity);

    table.shrink_to_fit(|k| hash_key(&state, k.key));

    assert_eq!(table.len(), 10);
    assert!(table.capacity() < initial_capacity);
    assert!(table.capacity() >= 10);

    for i in 190..200 {
        let hash = hash_key(&state, i);
        let found = table.find(hash, |v| v.key == i);
        assert!(found.is_some());
        assert_eq!(found.unwrap().value, i as i32);
    }
}

#[test]
fn test_shrink_to_fit_with_overflow() {
    let state = HashState::default();
    let mut table: HashTable<Item> = HashTable::with_capacity(100);

    let mut items_with_same_hash = Vec::new();
    let base_hash = hash_key(&state, 42);

    for i in 0..50 {
        items_with_same_hash.push(Item {
            key: 1000 + i,
            value: i as i32,
        });
    }

    for item in &items_with_same_hash {
        table
            .entry(base_hash, |v| v.key == item.key, |_| base_hash)
            .or_insert(item.clone());
    }

    assert_eq!(table.len(), 50);
    let initial_capacity = table.capacity();

    for i in 0..40 {
        table.remove(base_hash, |v| v.key == 1000 + i);
    }

    assert_eq!(table.len(), 10);

    table.shrink_to_fit(|_| base_hash);

    assert_eq!(table.len(), 10);
    assert!(table.capacity() <= initial_capacity);

    for i in 40..50 {
        let found = table.find(base_hash, |v| v.key == 1000 + i);
        assert!(found.is_some());
        assert_eq!(found.unwrap().value, i as i32);
    }
}

#[test]
fn test_shrink_to_fit_no_change_when_optimal() {
    let state = HashState::default();
    let mut table: HashTable<Item> = HashTable::with_capacity(0);

    for i in 0..50 {
        let hash = hash_key(&state, i);
        table
            .entry(hash, |v| v.key == i, |v| hash_key(&state, v.key))
            .or_insert(Item {
                key: i,
                value: i as i32,
            });
    }

    table.shrink_to_fit(|k| hash_key(&state, k.key));
    let optimal_capacity = table.capacity();

    table.shrink_to_fit(|k| hash_key(&state, k.key));
    let capacity_after_second_shrink = table.capacity();

    assert_eq!(table.len(), 50);
    assert_eq!(optimal_capacity, capacity_after_second_shrink);

    for i in 0..50 {
        let hash = hash_key(&state, i);
        let found = table.find(hash, |v| v.key == i);
        assert!(found.is_some());
        assert_eq!(found.unwrap().value, i as i32);
    }
}

#[test]
fn test_shrink_to_fit_preserves_functionality() {
    let state = HashState::default();
    let mut table: HashTable<Item> = HashTable::with_capacity(500);

    for i in 0..100 {
        let hash = hash_key(&state, i);
        table
            .entry(hash, |v| v.key == i, |v| hash_key(&state, v.key))
            .or_insert(Item {
                key: i,
                value: i as i32,
            });
    }

    table.shrink_to_fit(|k| hash_key(&state, k.key));

    let new_hash = hash_key(&state, 999);
    table
        .entry(new_hash, |v| v.key == 999, |v| hash_key(&state, v.key))
        .or_insert(Item {
            key: 999,
            value: 999,
        });

    assert_eq!(table.len(), 101);

    let found = table.find(new_hash, |v| v.key == 999);
    assert!(found.is_some());
    assert_eq!(found.unwrap().value, 999);

    let removed = table.remove(new_hash, |v| v.key == 999);
    assert!(removed.is_some());
    assert_eq!(table.len(), 100);
}

#[test]
fn miri_drain_with_overflow_must_not_lose_elements() {
    let mut table = HashTable::<Box<u32>>::with_capacity(16);

    let total_items: u32 = 260;
    for i in 0..total_items {
        let value = Box::new(i);

        table.entry(0, |v| **v == i, |_| 0).or_insert(value);
    }

    assert_eq!(table.len(), total_items as usize);

    assert!(table.overflow_len() != 0, "Expected items in overflow");

    let mut drained_items = drain_all(&mut table).into_iter().map(|v| *v).collect::<Vec<_>>();
    drained_items.sort();

    let expected_items = (0..total_items).collect::<Vec<_>>();

    assert_eq!(
        drained_items.len(),
        total_items as usize,
        "Drain should return all items"
    );
    assert_eq!(
        drained_items, expected_items,
        "Drained items should match inserted items"
    );

    assert!(table.is_empty(), "Table should be empty after drain");
    assert_eq!(table.len(), 0, "Table length should be 0 after drain");
}

#[test]
fn miri_iter_over_table_with_overflow() {
    let mut table = HashTable::<Box<u32>>::with_capacity(16);

    let total_items: u32 = 260;
    for i in 0..total_items {
        let value = Box::new(i);
        table.entry(0, |v| **v == i, |_| 0).or_insert(value);
    }

    assert_eq!(table.len(), total_items as usize);
    assert!(table.overflow_len() != 0, "Expected items in overflow");

    let mut items = iter_all(&table).into_iter().map(|v| **v).collect::<Vec<_>>();
    items.sort();

    let expected_items = (0..total_items).collect::<Vec<_>>();

    assert_eq!(items, expected_items, "Iter should visit all items");
}

#[test]
fn comprehensive_full_drain_with_reuse() {
    let state = HashState::default();
    let mut table: HashTable<Item> = HashTable::with_capacity(0);

    for k in 0..8u64 {
        let hash = hash_key(&state, k);
        table
            .entry(hash, |v| v.key == k, |v| hash_key(&state, v.key))
            .or_insert(Item {
                key: k,
                value: k as i32,
            });
    }

    assert_eq!(table.len(), 8);

    let drained: Vec<Item> = drain_all(&mut table);
    assert_eq!(drained.len(), 8);
    assert_eq!(table.len(), 0);
    assert!(table.is_empty());

    let drained_keys: std::collections::HashSet<u64> = drained.iter().map(|item| item.key).collect();
    for k in 0..8u64 {
        assert!(drained_keys.contains(&k), "Should have drained key {}", k);
    }

    for k in 20..25u64 {
        let hash = hash_key(&state, k);
        table
            .entry(hash, |v| v.key == k, |v| hash_key(&state, v.key))
            .or_insert(Item {
                key: k,
                value: (k as i32) + 100,
            });
    }

    assert_eq!(table.len(), 5);
    assert!(!table.is_empty());

    for k in 20..25u64 {
        let hash = hash_key(&state, k);
        let found = table.find(hash, |v| v.key == k);
        assert!(found.is_some(), "Should find new key {}", k);
        assert_eq!(found.unwrap().value, (k as i32) + 100);
    }

    for k in 0..8u64 {
        let hash = hash_key(&state, k);
        assert!(
            table.find(hash, |v| v.key == k).is_none(),
            "Should not find old key {}",
            k
        );
    }
}

#[test]
fn comprehensive_drain_edge_cases() {
    let state = HashState::default();

    {
        let mut empty_table: HashTable<Item> = HashTable::with_capacity(0);
        let drained: Vec<Item> = drain_all(&mut empty_table);
        assert_eq!(drained.len(), 0);
        assert_eq!(empty_table.len(), 0);
        assert!(empty_table.is_empty());
    }

    {
        let mut single_table: HashTable<Item> = HashTable::with_capacity(0);
        let hash = hash_key(&state, 42);
        single_table
            .entry(hash, |v| v.key == 42, |v| hash_key(&state, v.key))
            .or_insert(Item {
                key: 42,
                value: 123,
            });

        assert_eq!(single_table.len(), 1);

        let drained: Vec<Item> = drain_all(&mut single_table);
        assert_eq!(drained.len(), 1);
        assert_eq!(drained[0].key, 42);
        assert_eq!(drained[0].value, 123);
        assert_eq!(single_table.len(), 0);
        assert!(single_table.is_empty());
    }

    {
        let mut single_table: HashTable<Item> = HashTable::with_capacity(0);
        let hash = hash_key(&state, 99);
        single_table
            .entry(hash, |v| v.key == 99, |v| hash_key(&state, v.key))
            .or_insert(Item {
                key: 99,
                value: 456,
            });

        let mut drainer = single_table.drain();
        let item = drainer.next().unwrap();
        assert_eq!(item.key, 99);
        assert_eq!(item.value, 456);

        assert!(drainer.next().is_none());
        drop(drainer);

        assert_eq!(single_table.len(), 0);
        assert!(single_table.is_empty());
    }
}
