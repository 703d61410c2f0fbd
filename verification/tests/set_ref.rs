use flurry::set::HashSet;
use flurry::set_ref::SetOp;

fn set_of(values: &[u64]) -> HashSet<u64> {
    HashSet::from_vec(values.to_vec())
}

#[test]
fn from_vec_holds_each_value_once() {
    let set = HashSet::from_vec(vec![3u64, 1, 3, 2, 1]);
    assert_eq!(set.len(), 3);
    let guard = set.guard();
    let mut all: Vec<u64> = set.iter(&guard).into_iter().map(|e| *e).collect();
    all.sort();
    assert_eq!(all, vec![1, 2, 3]);
    let none: HashSet<u64> = HashSet::from_vec(Vec::new());
    assert!(none.is_empty());
}

#[test]
fn disjoint_follows_the_other_set() {
    let mut a = set_of(&[1, 2, 3]);
    let mut b: HashSet<u64> = HashSet::new();
    assert!(a.pin().is_disjoint(&b.pin()));
    b.pin().insert(4);
    assert!(a.pin().is_disjoint(&b.pin()));
    b.pin().insert(1);
    assert!(!a.pin().is_disjoint(&b.pin()));
}

#[test]
fn subset_follows_the_inserts() {
    let mut sup = set_of(&[1, 2, 3]);
    let mut set: HashSet<u64> = HashSet::new();
    assert!(set.pin().is_subset(&sup.pin()));
    set.pin().insert(2);
    assert!(set.pin().is_subset(&sup.pin()));
    set.pin().insert(4);
    assert!(!set.pin().is_subset(&sup.pin()));
}

#[test]
fn superset_follows_the_inserts() {
    let mut sub = set_of(&[1, 2]);
    let mut set: HashSet<u64> = HashSet::new();
    assert!(!set.pin().is_superset(&sub.pin()));
    set.pin().insert(0);
    set.pin().insert(1);
    assert!(!set.pin().is_superset(&sub.pin()));
    set.pin().insert(2);
    assert!(set.pin().is_superset(&sub.pin()));
}

#[test]
fn remove_twice_is_present_then_absent() {
    let mut set = set_of(&[7]);
    let mut pinned = set.pin();
    assert!(pinned.remove(&7));
    assert!(!pinned.remove(&7));
    assert_eq!(pinned.len(), 0);
    assert!(pinned.is_empty());
}

#[test]
fn insert_of_a_present_element_changes_nothing() {
    let mut set: HashSet<u64> = HashSet::new();
    let mut pinned = set.pin();
    assert!(pinned.insert(5));
    assert_eq!(pinned.len(), 1);
    assert!(!pinned.insert(5));
    assert_eq!(pinned.len(), 1);
    assert_eq!(pinned.get(&5), Some(&5));
    assert_eq!(pinned.get(&6), None);
}

#[test]
fn many_inserts_survive_the_resizes() {
    let mut set: HashSet<u64> = HashSet::new();
    let mut pinned = set.pin();
    for v in 0..5000u64 {
        assert!(pinned.insert(v * 7));
    }
    assert_eq!(pinned.len(), 5000);
    for v in 0..5000u64 {
        assert!(pinned.contains(&(v * 7)));
        assert!(!pinned.contains(&(v * 7 + 1)));
    }
    let mut seen: Vec<u64> = pinned.iter().into_iter().map(|r| *r).collect();
    seen.sort();
    let want: Vec<u64> = (0..5000u64).map(|v| v * 7).collect();
    assert_eq!(seen, want);
    for v in 0..5000u64 {
        assert_eq!(pinned.take(&(v * 7)), Some(v * 7));
    }
    assert!(pinned.is_empty());
}

#[test]
fn retain_shows_every_element_once() {
    let mut set = set_of(&[1, 2, 3, 4, 5, 6, 7, 8, 9, 10]);
    let mut pinned = set.pin();
    let mut shown: Vec<u64> = Vec::new();
    pinned.retain(|e| {
        shown.push(*e);
        *e % 2 == 1
    });
    shown.sort();
    assert_eq!(shown, vec![1, 2, 3, 4, 5, 6, 7, 8, 9, 10]);
    assert_eq!(pinned.len(), 5);
    for e in 1..=10u64 {
        assert_eq!(pinned.contains(&e), e % 2 == 1);
    }
}

#[test]
fn clear_leaves_an_empty_set() {
    let mut set = set_of(&[1, 2, 3]);
    let mut pinned = set.pin();
    pinned.clear();
    assert!(pinned.is_empty());
    assert_eq!(pinned.len(), 0);
    assert!(!pinned.contains(&1));
    assert!(pinned.iter().is_empty());
    assert!(pinned.insert(1));
    assert_eq!(pinned.len(), 1);
}

#[test]
fn reserve_changes_no_element() {
    let mut set = set_of(&[1, 2, 3]);
    let mut pinned = set.pin();
    assert_eq!(pinned.map.capacity(), 16);
    pinned.reserve(40);
    // three quarters of 32 bins are fewer than 43 elements
    assert_eq!(pinned.map.capacity(), 64);
    assert_eq!(pinned.len(), 3);
    let mut all: Vec<u64> = pinned.iter().into_iter().map(|e| *e).collect();
    all.sort();
    assert_eq!(all, vec![1, 2, 3]);
}

#[test]
fn take_gives_the_element() {
    let mut set = set_of(&[4, 20]);
    let mut pinned = set.pin();
    assert_eq!(pinned.take(&20), Some(20));
    assert_eq!(pinned.take(&20), None);
    assert_eq!(pinned.take(&5), None);
    assert_eq!(pinned.len(), 1);
    assert!(pinned.contains(&4));
}

#[test]
fn what_is_done_through_the_reference_is_done_to_the_set() {
    let mut set: HashSet<u64> = HashSet::new();
    set.pin().insert(3);
    set.pin().insert(19);
    set.pin().remove(&3);
    assert_eq!(set.len(), 1);
    assert!(!set.is_empty());
    let guard = set.guard();
    assert!(set.contains(&19, &guard));
    assert!(!set.contains(&3, &guard));
    assert_eq!(set.get(&19, &guard), Some(&19));
    assert_eq!(set.get(&3, &guard), None);
    assert_eq!(set.iter(&guard), vec![&19]);
}

#[test]
fn sets_are_compared_under_two_guards() {
    let a = set_of(&[1, 2, 3]);
    let b = set_of(&[3, 2, 1]);
    let c = set_of(&[1, 2]);
    let d = set_of(&[7]);
    let (ga, gb, gc, gd) = (a.guard(), b.guard(), c.guard(), d.guard());
    assert!(a.guarded_eq(&b, &ga, &gb));
    assert!(!a.guarded_eq(&c, &ga, &gc));
    assert!(!c.guarded_eq(&a, &gc, &ga));
    assert!(c.guarded_subset(&a, &gc, &ga));
    assert!(!a.guarded_subset(&c, &ga, &gc));
    assert!(a.guarded_superset(&c, &ga, &gc));
    assert!(!c.guarded_superset(&a, &gc, &ga));
    assert!(a.guarded_disjoint(&d, &ga, &gd));
    assert!(!a.guarded_disjoint(&c, &ga, &gc));
}

#[test]
fn an_empty_set_is_disjoint_from_and_within_every_set() {
    let mut empty: HashSet<u64> = HashSet::new();
    let mut other = set_of(&[1]);
    let mut none: HashSet<u64> = HashSet::new();
    assert!(empty.pin().is_disjoint(&other.pin()));
    assert!(empty.pin().is_subset(&other.pin()));
    assert!(!empty.pin().is_superset(&other.pin()));
    assert!(empty.pin().is_disjoint(&none.pin()));
    assert!(empty.pin().is_subset(&none.pin()));
    assert!(empty.pin().is_superset(&none.pin()));
}

#[test]
fn insert_then_remove_of_many_leaves_nothing() {
    let mut set: HashSet<u64> = HashSet::new();
    let mut pinned = set.pin();
    // interleaved: each element is removed some time after it went in
    for round in 0..50u64 {
        for e in 0..20u64 {
            assert!(pinned.insert(round * 100 + e));
        }
        if round > 0 {
            for e in 0..20u64 {
                assert!(pinned.remove(&((round - 1) * 100 + e)));
            }
        }
    }
    for e in 0..20u64 {
        assert!(pinned.remove(&(49 * 100 + e)));
    }
    assert_eq!(pinned.len(), 0);
    assert!(pinned.is_empty());
    assert!(pinned.iter().is_empty());
}

#[test]
fn signed_elements() {
    let mut set: HashSet<i32> = HashSet::new();
    let mut pinned = set.pin();
    for e in [-5, -1, 0, 1, 5, i32::MIN, i32::MAX] {
        assert!(pinned.insert(e));
    }
    assert_eq!(pinned.len(), 7);
    assert!(pinned.contains(&-5));
    assert!(pinned.contains(&i32::MIN));
    assert!(!pinned.contains(&-2));
    assert!(pinned.remove(&-1));
    assert!(!pinned.contains(&-1));
}

#[test]
fn extend_adds_what_is_not_there() {
    let mut set = set_of(&[1, 2]);
    let mut pinned = set.pin();
    pinned.extend(vec![2, 3, 3, 4]);
    assert_eq!(pinned.len(), 4);
    for e in 1..=4u64 {
        assert!(pinned.contains(&e));
    }
    pinned.extend(Vec::new());
    assert_eq!(pinned.len(), 4);
}

#[test]
fn apply_says_whether_the_set_changed() {
    let mut set: HashSet<u64> = HashSet::new();
    let mut pinned = set.pin();
    assert!(pinned.apply(SetOp::Insert(1)));
    assert!(!pinned.apply(SetOp::Insert(1)));
    assert!(!pinned.apply(SetOp::Remove(2)));
    assert!(pinned.apply(SetOp::Remove(1)));
    assert!(pinned.is_empty());
}

#[test]
fn a_run_ends_where_each_element_was_last_left() {
    let mut set = set_of(&[10]);
    let mut pinned = set.pin();
    pinned.apply_all(vec![
        SetOp::Insert(1),
        SetOp::Insert(2),
        SetOp::Remove(1),
        SetOp::Remove(10),
        SetOp::Insert(3),
        SetOp::Remove(3),
        SetOp::Insert(10),
        SetOp::Insert(1),
        SetOp::Remove(2),
        SetOp::Insert(2),
        SetOp::Remove(4),
    ]);
    let mut all: Vec<u64> = pinned.iter().into_iter().map(|e| *e).collect();
    all.sort();
    assert_eq!(all, vec![1, 2, 10]);
    // the operations on 2 alone end the same way for 2
    let mut alone: HashSet<u64> = HashSet::new();
    let mut only = alone.pin();
    only.apply_all(vec![SetOp::Insert(2), SetOp::Remove(2), SetOp::Insert(2)]);
    assert_eq!(only.contains(&2), pinned.contains(&2));
}

#[test]
fn a_run_of_inserts_each_removed_later_leaves_nothing() {
    let mut set: HashSet<u64> = HashSet::new();
    let mut pinned = set.pin();
    let mut ops = Vec::new();
    for e in 0..200u64 {
        ops.push(SetOp::Insert(e));
        if e >= 3 {
            ops.push(SetOp::Remove(e - 3));
        }
    }
    for e in 197..200u64 {
        ops.push(SetOp::Remove(e));
    }
    pinned.apply_all(ops);
    assert_eq!(pinned.len(), 0);
    assert!(pinned.is_empty());
}

#[test]
fn the_default_set_is_empty() {
    let mut set: HashSet<u32> = HashSet::default();
    assert!(set.is_empty());
    assert!(set.pin().insert(9));
    assert_eq!(set.len(), 1);
}
