use flurry::bin::Bin;
use flurry::key::{Key, Prehashed};
use flurry::node::Node;

fn chain_of(ids: &[u64]) -> Bin<Prehashed, u64> {
    let mut bin = Bin::Empty;
    for id in ids {
        let key = Prehashed { hash: id % 4, id: *id };
        bin.put(key.hash, key, id * 2);
    }
    bin
}

fn ids_of(bin: &Bin<Prehashed, u64>) -> Vec<u64> {
    let mut out = Vec::new();
    bin.collect_keys(&mut out);
    out.into_iter().map(|k| k.id).collect()
}

#[test]
fn a_chain_keeps_the_order_of_arrival() {
    let bin = chain_of(&[9, 3, 7, 1]);
    assert!(matches!(bin, Bin::Chain(_)));
    assert_eq!(bin.len(), 4);
    assert_eq!(ids_of(&bin), vec![9, 3, 7, 1]);
}

#[test]
fn an_empty_bin_and_a_marker_hold_nothing() {
    let empty: Bin<Prehashed, u64> = Bin::Empty;
    let moved: Bin<Prehashed, u64> = Bin::Moved;
    let key = Prehashed { hash: 1, id: 1 };
    assert_eq!(empty.len(), 0);
    assert_eq!(moved.len(), 0);
    assert_eq!(empty.find(1, &key), None);
    assert_eq!(moved.find(1, &key), None);
    assert!(empty.get(1, &key).is_none());
    assert!(ids_of(&moved).is_empty());
}

#[test]
fn put_replaces_the_value_and_keeps_the_place() {
    let mut bin = chain_of(&[9, 3, 7]);
    let key = Prehashed { hash: 3, id: 3 };
    assert_eq!(bin.put(3, key, 100), Some(6));
    assert_eq!(bin.len(), 3);
    assert_eq!(bin.find(3, &key), Some(1));
    assert_eq!(bin.get(3, &key).map(|n| n.value), Some(100));
    assert_eq!(bin.node_at(1).value, 100);
    assert_eq!(bin.set_value(1, 5), 100);
    assert_eq!(bin.node_at(1).value, 5);
    assert_eq!(bin.node_at(1).key.id, 3);
}

#[test]
fn a_sorted_bin_orders_by_hash_then_key() {
    let mut bin = chain_of(&[9, 3, 7, 1, 8, 4, 12, 5]);
    bin.promote();
    assert!(matches!(bin, Bin::Sorted(_)));
    // hashes: 8,4,12 -> 0; 9,1,5 -> 1; 3,7 -> 3
    assert_eq!(ids_of(&bin), vec![4, 8, 12, 1, 5, 9, 3, 7]);
    for id in [9u64, 3, 7, 1, 8, 4, 12, 5] {
        let key = Prehashed { hash: id % 4, id };
        assert_eq!(bin.get(key.hash, &key).map(|n| n.value), Some(id * 2));
    }
    let absent = Prehashed { hash: 2, id: 6 };
    assert!(bin.get(2, &absent).is_none());
    assert_eq!(bin.find(1, &Prehashed { hash: 1, id: 5 }), Some(4));
    // a new node goes to its place
    let new = Prehashed { hash: 1, id: 6 };
    assert_eq!(bin.put(1, new, 0), None);
    assert_eq!(ids_of(&bin), vec![4, 8, 12, 1, 5, 6, 9, 3, 7]);
}

#[test]
fn taking_from_a_sorted_bin_demotes_it_at_six() {
    let mut bin = chain_of(&[1, 2, 3, 4, 5, 6, 7, 8]);
    bin.promote();
    let k8 = Prehashed { hash: 0, id: 8 };
    assert_eq!(bin.take(0, &k8).map(|n| n.value), Some(16));
    assert!(matches!(bin, Bin::Sorted(_)));
    assert_eq!(bin.len(), 7);
    assert!(bin.take(0, &k8).is_none());
    let k1 = Prehashed { hash: 1, id: 1 };
    assert_eq!(bin.take(1, &k1).map(|n| n.key.id), Some(1));
    assert!(matches!(bin, Bin::Chain(_)));
    assert_eq!(bin.len(), 6);
    assert_eq!(ids_of(&bin), vec![4, 5, 2, 6, 3, 7]);
}

#[test]
fn the_last_node_leaves_an_empty_bin() {
    let mut bin = chain_of(&[5]);
    let node: Node<Prehashed, u64> = bin.remove_at(0);
    assert_eq!((node.hash, node.key.id, node.value), (1, 5, 10));
    assert!(matches!(bin, Bin::Empty));
}

#[test]
fn split_parts_by_the_bit() {
    let bin = chain_of(&[1, 2, 3, 4, 5, 6, 7]);
    // hashes are id % 4: bit 2 is set for ids 2, 3, 6, 7
    let (lo, hi) = bin.split(2);
    let mut low = ids_of(&lo);
    let mut high = ids_of(&hi);
    low.sort();
    high.sort();
    assert_eq!(low, vec![1, 4, 5]);
    assert_eq!(high, vec![2, 3, 6, 7]);
    let (none, all) = chain_of(&[3, 7]).split(1);
    assert!(matches!(none, Bin::Empty));
    assert_eq!(all.len(), 2);
    let empty: Bin<Prehashed, u64> = Bin::Empty;
    let (a, b) = empty.split(16);
    assert!(matches!(a, Bin::Empty));
    assert!(matches!(b, Bin::Empty));
}

#[test]
fn a_half_of_a_sorted_bin_stays_sorted_only_if_long() {
    let ids: Vec<u64> = (0..20).collect();
    let mut bin = chain_of(&ids);
    bin.promote();
    // hash bit 1 is set for odd ids: ten each
    let (lo, hi) = bin.split(1);
    assert!(matches!(lo, Bin::Sorted(_)));
    assert!(matches!(hi, Bin::Sorted(_)));
    assert_eq!(ids_of(&lo), vec![0, 4, 8, 12, 16, 2, 6, 10, 14, 18]);
    let mut small = chain_of(&[0, 4, 8, 12, 16, 20, 1]);
    small.promote();
    let (lo, hi) = small.split(1);
    assert!(matches!(lo, Bin::Chain(_)));
    assert_eq!(lo.len(), 6);
    assert!(matches!(hi, Bin::Chain(_)));
    assert_eq!(hi.len(), 1);
}

#[test]
fn integers_hash_to_themselves() {
    assert_eq!(Key::hash(&7u64), 7);
    assert_eq!(Key::hash(&7u32), 7);
    assert_eq!(Key::hash(&7usize), 7);
    assert_eq!(Key::hash(&7i64), 7);
    assert_eq!(Key::hash(&-1i64), u64::MAX);
    assert_eq!(Key::hash(&-1i32), u64::MAX);
    assert_eq!(Key::hash(&i32::MIN), u64::MAX - (i32::MAX as u64));
    assert!(Key::key_lt(&-3i32, &2i32));
    assert!(!Key::key_lt(&2i32, &2i32));
    assert!(Key::key_eq(&2u32, &2u32));
    assert!(!Key::key_eq(&2usize, &3usize));
}

#[test]
fn prehashed_keys_order_by_hash_first() {
    let a = Prehashed { hash: 1, id: 9 };
    let b = Prehashed { hash: 2, id: 0 };
    let c = Prehashed { hash: 2, id: 1 };
    assert_eq!(a.hash(), 1);
    assert!(a.key_lt(&b));
    assert!(b.key_lt(&c));
    assert!(!c.key_lt(&b));
    assert!(!b.key_lt(&b));
    assert!(b.key_eq(&b));
    assert!(!b.key_eq(&c));
    assert!(!a.key_eq(&Prehashed { hash: 0, id: 9 }));
}
