//! What holds of every run of operations on a set or a map, and of every
//! shape of a bin.

use vstd::prelude::*;
use crate::bin::Bin;
use crate::key::Key;
use crate::map::spec_insert_all;
use crate::set_ref::{spec_run, SetOp};
use crate::node::{contents, distinct_keys, has_key, lemma_contents_at, position, Node};

verus! {

/// Whether an element is in a set after a run of operations depends on the
/// operations on that element alone, in the order they were made: the
/// operations on other elements can be left out.
pub proof fn lemma_run_per_element<T>(s: Set<T>, ops: Seq<SetOp<T>>, e: T)
    ensures
        spec_run(s, ops).contains(e) == spec_run(
            s,
            ops.filter(|op: SetOp<T>| op.element() == e),
        ).contains(e),
    decreases ops.len(),
{
    let mine = |op: SetOp<T>| op.element() == e;
    reveal(Seq::filter);
    if ops.len() > 0 {
        lemma_run_per_element(s, ops.drop_last(), e);
        let rest = ops.drop_last().filter(mine);
        if mine(ops.last()) {
            assert(ops.filter(mine) == rest.push(ops.last()));
            assert(rest.push(ops.last()).drop_last() =~= rest);
        } else {
            assert(ops.filter(mine) == rest);
        }
    }
}

/// Whether the element that operation `i` is about is removed by a later
/// operation of the run.
pub open spec fn removed_later<T>(ops: Seq<SetOp<T>>, i: int) -> bool {
    exists|j: int| i < j < ops.len() && #[trigger] ops[j] == SetOp::Remove(ops[i].element())
}

/// Every insert of the run is followed by a remove of the same element.
pub open spec fn inserts_are_removed<T>(ops: Seq<SetOp<T>>) -> bool {
    forall|i: int| 0 <= i < ops.len() && (#[trigger] ops[i]) is Insert ==> removed_later(ops, i)
}

/// An element that is not in the set at the start, and whose every insert
/// is followed by a remove of it, is not in the set at the end.
pub proof fn lemma_removed_in_the_end<T>(s: Set<T>, ops: Seq<SetOp<T>>, e: T)
    requires
        !s.contains(e),
        forall|i: int|
            0 <= i < ops.len() && #[trigger] ops[i] == SetOp::Insert(e) ==> removed_later(ops, i),
    ensures
        !spec_run(s, ops).contains(e),
    decreases ops.len(),
{
    if ops.len() > 0 {
        let front = ops.drop_last();
        let last = ops.last();
        if last == SetOp::Insert(e) {
            let i = ops.len() - 1;
            assert(ops[i] == SetOp::Insert(e));
            assert(removed_later(ops, i));
            assert(false);
        } else if last == SetOp::Remove(e) {
        } else {
            assert forall|i: int|
                0 <= i < front.len() && #[trigger] front[i] == SetOp::Insert(
                    e,
                ) implies removed_later(front, i) by {
                assert(ops[i] == front[i]);
                assert(removed_later(ops, i));
                let j = choose|j: int|
                    i < j < ops.len() && #[trigger] ops[j] == SetOp::Remove(ops[i].element());
                assert(j < front.len());
                assert(front[j] == ops[j]);
            }
            lemma_removed_in_the_end(s, front, e);
        }
    }
}

/// A run on the empty set in which every insert is followed by a remove of
/// the same element leaves the empty set, of size zero.
pub proof fn lemma_inserts_then_removes_leave_nothing<T>(ops: Seq<SetOp<T>>)
    requires
        inserts_are_removed(ops),
    ensures
        spec_run(Set::<T>::empty(), ops) == Set::<T>::empty(),
        spec_run(Set::<T>::empty(), ops).len() == 0,
{
    assert forall|e: T| !spec_run(Set::<T>::empty(), ops).contains(e) by {
        lemma_removed_in_the_end(Set::<T>::empty(), ops, e);
    }
    assert(spec_run(Set::<T>::empty(), ops) =~= Set::<T>::empty());
}

/// Removing an element twice: the second time it is absent, and nothing
/// changes.
pub proof fn lemma_remove_twice<T>(s: Set<T>, e: T)
    ensures
        !s.remove(e).contains(e),
        s.remove(e).remove(e) == s.remove(e),
{
    assert(s.remove(e).remove(e) =~= s.remove(e));
}

/// Inserting an element that is present changes neither the set nor its
/// size.
pub proof fn lemma_insert_present<T>(s: Set<T>, e: T)
    requires
        s.contains(e),
    ensures
        s.insert(e) == s,
        s.insert(e).len() == s.len(),
{
    assert(s.insert(e) =~= s);
}

/// Storing a value under a key that is present replaces that key's value,
/// and leaves the keys and the size what they were.
pub proof fn lemma_map_insert_present<K, V>(m: Map<K, V>, key: K, value: V)
    requires
        m.contains_key(key),
    ensures
        m.insert(key, value).dom() == m.dom(),
        m.insert(key, value).len() == m.len(),
        m.insert(key, value)[key] == value,
        m.get(key) == Some(m[key]),
{
    assert(m.insert(key, value).dom() =~= m.dom());
}

/// Entries with distinct keys, stored into the empty map, are all there:
/// as many as were stored, each key with the value stored under it, and no
/// other key.
pub proof fn lemma_all_inserted_are_found<K, V>(entries: Seq<(K, V)>)
    requires
        forall|i: int, j: int|
            0 <= i < j < entries.len() ==> (#[trigger] entries[i]).0 != (#[trigger] entries[j]).0,
    ensures
        spec_insert_all(Map::<K, V>::empty(), entries).dom().finite(),
        spec_insert_all(Map::<K, V>::empty(), entries).len() == entries.len(),
        forall|i: int|
            0 <= i < entries.len() ==> spec_insert_all(Map::<K, V>::empty(), entries).contains_pair(
                (#[trigger] entries[i]).0,
                entries[i].1,
            ),
        forall|k: K|
            spec_insert_all(Map::<K, V>::empty(), entries).contains_key(k) ==> exists|i: int|
                0 <= i < entries.len() && (#[trigger] entries[i]).0 == k,
    decreases entries.len(),
{
    let all = spec_insert_all(Map::<K, V>::empty(), entries);
    if entries.len() > 0 {
        let front = entries.drop_last();
        let last = entries.last();
        let before = spec_insert_all(Map::<K, V>::empty(), front);
        assert forall|i: int, j: int| 0 <= i < j < front.len() implies (#[trigger] front[i]).0 != (
        #[trigger] front[j]).0 by {
            assert(front[i] == entries[i]);
            assert(front[j] == entries[j]);
        }
        lemma_all_inserted_are_found(front);
        if before.contains_key(last.0) {
            let i = choose|i: int| 0 <= i < front.len() && (#[trigger] front[i]).0 == last.0;
            assert(front[i] == entries[i]);
            assert(entries[i].0 != entries[entries.len() - 1].0);
        }
        assert forall|i: int| 0 <= i < entries.len() implies all.contains_pair(
            (#[trigger] entries[i]).0,
            entries[i].1,
        ) by {
            if i < front.len() {
                assert(front[i] == entries[i]);
                assert(entries[i].0 != entries[entries.len() - 1].0);
            }
        }
        assert forall|k: K| all.contains_key(k) implies exists|i: int|
            0 <= i < entries.len() && (#[trigger] entries[i]).0 == k by {
            if k == last.0 {
                assert(entries[entries.len() - 1].0 == k);
            } else {
                let i = choose|i: int| 0 <= i < front.len() && (#[trigger] front[i]).0 == k;
                assert(front[i] == entries[i]);
            }
        }
    }
}

/// What a sequence of nodes means as a map does not depend on the order of
/// its nodes: two sequences with distinct keys that hold the same nodes
/// stand for the same map.
pub proof fn lemma_contents_ignore_order<K, V>(a: Seq<Node<K, V>>, b: Seq<Node<K, V>>)
    requires
        distinct_keys(a),
        distinct_keys(b),
        forall|i: int| 0 <= i < a.len() ==> b.contains(#[trigger] a[i]),
        forall|j: int| 0 <= j < b.len() ==> a.contains(#[trigger] b[j]),
    ensures
        contents(a) == contents(b),
{
    assert forall|k: K| contents(a).contains_key(k) == contents(b).contains_key(k) by {
        if has_key(a, k) {
            let p = position(a, k);
            assert(b.contains(a[p]));
            let q = choose|q: int| 0 <= q < b.len() && b[q] == a[p];
            assert(b[q].key == k);
        }
        if has_key(b, k) {
            let q = position(b, k);
            assert(a.contains(b[q]));
            let p = choose|p: int| 0 <= p < a.len() && a[p] == b[q];
            assert(a[p].key == k);
        }
    }
    assert forall|k: K| contents(a).contains_key(k) implies contents(a)[k] == contents(b)[k] by {
        let p = position(a, k);
        lemma_contents_at(a, p);
        assert(b.contains(a[p]));
        let q = choose|q: int| 0 <= q < b.len() && b[q] == a[p];
        lemma_contents_at(b, q);
    }
    assert(contents(a) =~= contents(b));
}

/// A lookup gives the same in a chain and in a sorted bin that hold the
/// same nodes.
pub proof fn lemma_lookup_ignores_shape<K: Key, V>(chain: Bin<K, V>, ordered: Bin<K, V>, key: K)
    requires
        chain.wf(),
        ordered.wf(),
        forall|i: int|
            0 <= i < chain.nodes().len() ==> ordered.nodes().contains(#[trigger] chain.nodes()[i]),
        forall|j: int|
            0 <= j < ordered.nodes().len() ==> chain.nodes().contains(#[trigger] ordered.nodes()[j]),
    ensures
        chain@ == ordered@,
        chain@.get(key) == ordered@.get(key),
{
    lemma_contents_ignore_order(chain.nodes(), ordered.nodes());
}

} // verus!
