use flurry::ebr::Guard;
use flurry::key::Prehashed;
use flurry::map::HashMap;
use std::sync::Arc;

fn collector() -> flize::Collector {
    flize::Collector::new()
}

#[test]
fn new_map_is_empty_with_sixteen_bins() {
    let c = collector();
    let g = Guard::pin(&c);
    let map: HashMap<u64, u64> = HashMap::new();
    assert_eq!(map.len(), 0);
    assert!(map.is_empty());
    assert_eq!(map.capacity(), 16);
    assert!(!map.is_resizing());
    assert_eq!(map.get(&1, &g), None);
    assert!(!map.contains_key(&1, &g));
    assert!(map.keys(&g).is_empty());
}

#[test]
fn insert_gives_the_previous_value() {
    let c = collector();
    let g = Guard::pin(&c);
    let mut map: HashMap<u64, &str> = HashMap::new();
    assert_eq!(map.insert(1, "one", &g), None);
    assert_eq!(map.insert(2, "two", &g), None);
    assert_eq!(map.len(), 2);
    assert_eq!(map.insert(1, "uno", &g), Some("one"));
    assert_eq!(map.len(), 2);
    assert_eq!(map.get(&1, &g), Some(&"uno"));
    assert_eq!(map.get(&2, &g), Some(&"two"));
    assert_eq!(map.get(&3, &g), None);
    assert_eq!(map.get_key_value(&2, &g), Some((&2, &"two")));
}

#[test]
fn remove_gives_the_value_once() {
    let c = collector();
    let g = Guard::pin(&c);
    let mut map: HashMap<u64, u64> = HashMap::new();
    map.insert(10, 100, &g);
    map.insert(26, 260, &g);
    assert_eq!(map.remove(&10, &g), Some(100));
    assert_eq!(map.remove(&10, &g), None);
    assert_eq!(map.len(), 1);
    assert_eq!(map.take(&26, &g), Some((26, 260)));
    assert_eq!(map.take(&26, &g), None);
    assert!(map.is_empty());
}

#[test]
fn the_table_doubles_at_three_quarters() {
    let c = collector();
    let g = Guard::pin(&c);
    let mut map: HashMap<u64, u64> = HashMap::new();
    for k in 0..11u64 {
        map.insert(k, k, &g);
    }
    assert_eq!(map.capacity(), 16);
    assert!(!map.is_resizing());
    map.insert(11, 11, &g);
    assert_eq!(map.capacity(), 16);
    assert!(map.is_resizing());
    for k in 0..12u64 {
        assert_eq!(map.get(&k, &g), Some(&k));
    }
    assert_eq!(map.generation(), 0);
    map.insert(12, 12, &g);
    assert_eq!(map.capacity(), 32);
    assert_eq!(map.generation(), 1);
    assert!(!map.is_resizing());
    assert_eq!(map.len(), 13);
    for k in 0..13u64 {
        assert_eq!(map.get(&k, &g), Some(&k));
    }
}

#[test]
fn entries_are_found_in_the_middle_of_a_resize() {
    let c = collector();
    let g = Guard::pin(&c);
    let mut map: HashMap<u64, u64> = HashMap::new();
    // 48 entries bring the table to 64 bins and start the move to 128,
    // of which one operation carries over 16 bins.
    for k in 0..48u64 {
        map.insert(k * 3, k, &g);
    }
    assert_eq!(map.capacity(), 64);
    assert!(map.is_resizing());
    assert_eq!(map.remove(&3, &g), Some(1));
    assert!(map.is_resizing());
    assert_eq!(map.insert(3, 7, &g), None);
    assert!(map.is_resizing());
    assert_eq!(map.len(), 48);
    for k in 0..48u64 {
        let want = if k == 1 { 7 } else { k };
        assert_eq!(map.get(&(k * 3), &g), Some(&want));
    }
    let mut keys: Vec<u64> = map.keys(&g).into_iter().map(|k| *k).collect();
    keys.sort();
    assert_eq!(keys, (0..48u64).map(|k| k * 3).collect::<Vec<u64>>());
    map.remove(&0, &g);
    map.remove(&6, &g);
    assert_eq!(map.capacity(), 128);
    assert!(!map.is_resizing());
    assert_eq!(map.len(), 46);
}

#[test]
fn colliding_keys_force_a_sorted_bin() {
    let c = collector();
    let g = Guard::pin(&c);
    let mut map: HashMap<Prehashed, u64> = HashMap::new();
    let key = |id: u64| Prehashed { hash: 5, id };
    for id in 0..7u64 {
        map.insert(key(id * 10), id, &g);
    }
    assert_eq!(map.bin_len(&key(0)), 7);
    assert!(!map.bin_sorted(&key(0)));
    assert_eq!(map.capacity(), 16);
    // the eighth node crowds the bin of a table too small for sorted bins
    map.insert(key(70), 7, &g);
    assert!(map.is_resizing());
    assert!(!map.bin_sorted(&key(0)));
    map.insert(key(80), 8, &g);
    assert_eq!(map.capacity(), 32);
    map.insert(key(90), 9, &g);
    assert!(!map.bin_sorted(&key(0)));
    map.insert(key(100), 10, &g);
    assert_eq!(map.capacity(), 64);
    assert_eq!(map.bin_len(&key(0)), 11);
    assert!(map.bin_sorted(&key(0)));
    for id in 0..11u64 {
        assert_eq!(map.get(&key(id * 10), &g), Some(&id));
        assert_eq!(map.get(&key(id * 10 + 1), &g), None);
    }
    assert_eq!(map.insert(key(30), 33, &g), Some(3));
    assert_eq!(map.insert(key(35), 35, &g), None);
    assert_eq!(map.get(&key(35), &g), Some(&35));
    assert_eq!(map.len(), 12);
}

#[test]
fn a_sorted_bin_that_shrinks_becomes_a_chain() {
    let c = collector();
    let g = Guard::pin(&c);
    let mut map: HashMap<Prehashed, u64> = HashMap::new();
    let key = |id: u64| Prehashed { hash: 9, id };
    for id in 0..11u64 {
        map.insert(key(id), id, &g);
    }
    assert!(map.bin_sorted(&key(0)));
    for id in 0..4u64 {
        assert_eq!(map.remove(&key(id), &g), Some(id));
    }
    assert_eq!(map.bin_len(&key(0)), 7);
    assert!(map.bin_sorted(&key(0)));
    assert_eq!(map.remove(&key(4), &g), Some(4));
    assert_eq!(map.bin_len(&key(0)), 6);
    assert!(!map.bin_sorted(&key(0)));
    for id in 5..11u64 {
        assert_eq!(map.get(&key(id), &g), Some(&id));
    }
    for id in 0..5u64 {
        assert_eq!(map.get(&key(id), &g), None);
    }
}

#[test]
fn lookups_agree_in_a_chain_and_in_a_sorted_bin() {
    let c = collector();
    let g = Guard::pin(&c);
    // the same twelve keys, once in one bin and once spread over the table
    let mut crowded: HashMap<Prehashed, u64> = HashMap::new();
    let mut spread: HashMap<Prehashed, u64> = HashMap::new();
    for id in 0..12u64 {
        crowded.insert(Prehashed { hash: 3, id: id * 2 }, id, &g);
        spread.insert(Prehashed { hash: id, id: id * 2 }, id, &g);
    }
    assert!(crowded.bin_sorted(&Prehashed { hash: 3, id: 0 }));
    for id in 0..24u64 {
        let a = crowded.get(&Prehashed { hash: 3, id }, &g).copied();
        let b = spread.get(&Prehashed { hash: id / 2, id }, &g).copied();
        assert_eq!(a, b);
        assert_eq!(a, if id % 2 == 0 { Some(id / 2) } else { None });
    }
}

#[test]
fn retain_keeps_what_the_predicate_accepts() {
    let c = collector();
    let g = Guard::pin(&c);
    let mut map: HashMap<u64, u64> = HashMap::new();
    for k in 0..100u64 {
        map.insert(k, k * k, &g);
    }
    let mut shown = 0;
    map.retain(
        |k, v| {
            shown += 1;
            assert_eq!(*v, k * k);
            k % 3 == 0
        },
        &g,
    );
    assert_eq!(shown, 100);
    assert_eq!(map.len(), 34);
    for k in 0..100u64 {
        assert_eq!(map.get(&k, &g).copied(), if k % 3 == 0 { Some(k * k) } else { None });
    }
    map.retain_keys(|k| *k >= 50, &g);
    assert_eq!(map.len(), 17);
    assert!(!map.is_resizing());
}

#[test]
fn clear_keeps_the_capacity() {
    let c = collector();
    let g = Guard::pin(&c);
    let mut map: HashMap<u64, u64> = HashMap::new();
    for k in 0..48u64 {
        map.insert(k, k, &g);
    }
    assert_eq!(map.capacity(), 64);
    assert!(map.is_resizing());
    map.clear(&g);
    assert_eq!(map.capacity(), 64);
    assert_eq!(map.generation(), 2);
    assert!(!map.is_resizing());
    assert!(map.is_empty());
    assert_eq!(map.get(&5, &g), None);
    assert_eq!(map.insert(5, 6, &g), None);
    assert_eq!(map.len(), 1);
}

#[test]
fn reserve_doubles_until_there_is_room() {
    let c = collector();
    let g = Guard::pin(&c);
    let mut map: HashMap<u64, u64> = HashMap::new();
    map.reserve(11, &g);
    assert_eq!(map.capacity(), 16);
    map.reserve(12, &g);
    assert_eq!(map.capacity(), 32);
    map.reserve(100, &g);
    assert_eq!(map.capacity(), 256);
    assert_eq!(map.generation(), 4);
    for k in 0..100u64 {
        map.insert(k, k, &g);
    }
    assert_eq!(map.capacity(), 256);
    assert!(!map.is_resizing());
    // 100 entries and 92 more are 192, the threshold of 256 bins
    map.reserve(91, &g);
    assert_eq!(map.capacity(), 256);
    map.reserve(92, &g);
    assert_eq!(map.capacity(), 512);
    assert_eq!(map.len(), 100);
    for k in 0..100u64 {
        assert_eq!(map.get(&k, &g), Some(&k));
    }
}

#[test]
fn reserve_ends_a_resize_that_is_under_way() {
    let c = collector();
    let g = Guard::pin(&c);
    let mut map: HashMap<u64, u64> = HashMap::new();
    for k in 0..12u64 {
        map.insert(k, k, &g);
    }
    assert!(map.is_resizing());
    map.reserve(0, &g);
    assert!(!map.is_resizing());
    assert_eq!(map.capacity(), 32);
    assert_eq!(map.len(), 12);
}

#[test]
fn reserve_for_a_million() {
    let c = collector();
    let g = Guard::pin(&c);
    let mut map: HashMap<u64, u64> = HashMap::new();
    map.insert(1, 1, &g);
    map.reserve(1_000_000, &g);
    // three quarters of 2^20 bins are fewer than 1,000,001 entries
    assert_eq!(map.capacity(), 1 << 21);
    assert_eq!(map.get(&1, &g), Some(&1));
    assert_eq!(map.len(), 1);
}

#[test]
fn key_sets_are_compared_across_value_types() {
    let c = collector();
    let g = Guard::pin(&c);
    let mut a: HashMap<u64, u64> = HashMap::new();
    let mut b: HashMap<u64, &str> = HashMap::new();
    for k in [1u64, 2, 3] {
        a.insert(k, k, &g);
    }
    assert!(a.guarded_disjoint(&b, &g, &g));
    assert!(b.guarded_subset(&a, &g, &g));
    assert!(!a.guarded_subset(&b, &g, &g));
    assert!(a.guarded_superset(&b, &g, &g));
    assert!(!a.guarded_same_keys(&b, &g, &g));
    b.insert(3, "three", &g);
    assert!(!a.guarded_disjoint(&b, &g, &g));
    b.insert(1, "one", &g);
    b.insert(2, "two", &g);
    assert!(a.guarded_same_keys(&b, &g, &g));
    b.insert(4, "four", &g);
    assert!(!a.guarded_same_keys(&b, &g, &g));
    assert!(a.guarded_subset(&b, &g, &g));
}

#[test]
fn a_value_that_is_taken_out_is_the_callers_at_once() {
    let probe = Arc::new(());
    let c = collector();
    let g = Guard::pin(&c);
    let mut map: HashMap<u64, Arc<()>> = HashMap::new();
    for k in 0..40u64 {
        map.insert(k, probe.clone(), &g);
    }
    assert_eq!(Arc::strong_count(&probe), 41);
    let (_, v) = map.take(&0, &g).unwrap();
    assert_eq!(Arc::strong_count(&probe), 41);
    drop(v);
    assert_eq!(Arc::strong_count(&probe), 40);
    let v = map.remove(&1, &g).unwrap();
    drop(v);
    assert_eq!(Arc::strong_count(&probe), 39);
    // what is cleared is with the collector: destroyed now, or later
    map.clear(&g);
    assert!(Arc::strong_count(&probe) <= 39);
    assert!(map.is_empty());
}

#[test]
fn compute_replaces_or_removes() {
    let c = collector();
    let g = Guard::pin(&c);
    let mut map: HashMap<u64, u64> = HashMap::new();
    map.insert(1, 10, &g);
    map.insert(2, 20, &g);
    assert_eq!(map.compute_if_present(&1, |k, v| Some(k + v), &g), Some(&11));
    assert_eq!(map.get(&1, &g), Some(&11));
    assert_eq!(map.compute_if_present(&2, |_, _| None, &g), None);
    assert_eq!(map.get(&2, &g), None);
    assert_eq!(map.len(), 1);
    let mut called = false;
    assert_eq!(
        map.compute_if_present(
            &3,
            |_, _| {
                called = true;
                Some(0)
            },
            &g
        ),
        None
    );
    assert!(!called);
    assert_eq!(map.len(), 1);
}

#[test]
fn iter_gives_every_entry_once() {
    let c = collector();
    let g = Guard::pin(&c);
    let mut map: HashMap<u64, u64> = HashMap::new();
    for k in 0..30u64 {
        map.insert(k * 5, k, &g);
    }
    let mut entries: Vec<(u64, u64)> = map.iter(&g).into_iter().map(|(k, v)| (*k, *v)).collect();
    entries.sort();
    assert_eq!(entries, (0..30u64).map(|k| (k * 5, k)).collect::<Vec<(u64, u64)>>());
}

#[test]
fn all_that_was_stored_during_resizes_is_found() {
    let c = collector();
    let g = Guard::pin(&c);
    let mut map: HashMap<u64, u64> = HashMap::new();
    let entries: Vec<(u64, u64)> = (0..3000u64).map(|k| (k * 31, k + 1)).collect();
    map.extend(entries, &g);
    assert_eq!(map.len(), 3000);
    assert_eq!(map.capacity(), 4096);
    for k in 0..3000u64 {
        assert_eq!(map.get(&(k * 31), &g), Some(&(k + 1)));
    }
    assert_eq!(map.keys(&g).len(), 3000);
}

#[test]
fn of_two_entries_with_one_key_the_later_stays() {
    let c = collector();
    let g = Guard::pin(&c);
    let mut map: HashMap<u64, u64> = HashMap::new();
    map.extend(vec![(1, 1), (2, 2), (1, 3)], &g);
    assert_eq!(map.len(), 2);
    assert_eq!(map.get(&1, &g), Some(&3));
    assert_eq!(map.get(&2, &g), Some(&2));
}
