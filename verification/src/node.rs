//! Nodes, and what a sequence of nodes means as a map.

use vstd::prelude::*;
use crate::key::Key;

verus! {

/// One stored entry: the key, its value, and the key's hash, computed once
/// when the entry is made.
pub struct Node<K, V> {
    pub hash: u64,
    pub key: K,
    pub value: V,
}

/// The keys of the nodes, in the order they stand.
pub open spec fn key_seq<K, V>(nodes: Seq<Node<K, V>>) -> Seq<K> {
    nodes.map_values(|n: Node<K, V>| n.key)
}

/// What a sequence of borrowed keys borrows.
pub open spec fn borrowed<K>(refs: Seq<&K>) -> Seq<K> {
    refs.map_values(|r: &K| *r)
}

/// Whether some node of `nodes` holds `key`.
pub open spec fn has_key<K, V>(nodes: Seq<Node<K, V>>, key: K) -> bool {
    exists|i: int| 0 <= i < nodes.len() && (#[trigger] nodes[i]).key == key
}

/// The place of a node that holds `key`, where there is one.
pub open spec fn position<K, V>(nodes: Seq<Node<K, V>>, key: K) -> int {
    choose|i: int| 0 <= i < nodes.len() && (#[trigger] nodes[i]).key == key
}

/// The map from each key in `nodes` to the value stored beside it.
pub open spec fn contents<K, V>(nodes: Seq<Node<K, V>>) -> Map<K, V> {
    Map::new(|k: K| has_key(nodes, k), |k: K| nodes[position(nodes, k)].value)
}

/// No key occurs in two nodes.
pub open spec fn distinct_keys<K, V>(nodes: Seq<Node<K, V>>) -> bool {
    forall|i: int, j: int|
        0 <= i < j < nodes.len() ==> (#[trigger] nodes[i]).key != (#[trigger] nodes[j]).key
}

/// Every node carries the hash of its own key.
pub open spec fn hashes_agree<K: Key, V>(nodes: Seq<Node<K, V>>) -> bool {
    forall|i: int| 0 <= i < nodes.len() ==> (#[trigger] nodes[i]).hash == nodes[i].key.spec_hash()
}

/// The order of a sorted bin, on a hash and a key: by hash first, by key
/// among equal hashes.
pub open spec fn entry_lt<K: Key>(h1: u64, k1: K, h2: u64, k2: K) -> bool {
    h1 < h2 || (h1 == h2 && k1.spec_lt(&k2))
}

/// The order of a sorted bin, on nodes.
pub open spec fn node_lt<K: Key, V>(a: Node<K, V>, b: Node<K, V>) -> bool {
    entry_lt(a.hash, a.key, b.hash, b.key)
}

/// The order of a sorted bin is transitive.
pub proof fn lemma_entry_lt_transitive<K: Key>(h1: u64, k1: K, h2: u64, k2: K, h3: u64, k3: K)
    requires
        entry_lt(h1, k1, h2, k2),
        entry_lt(h2, k2, h3, k3),
    ensures
        entry_lt(h1, k1, h3, k3),
{
    if h1 == h2 && h2 == h3 {
        K::lemma_lt_transitive(&k1, &k2, &k3);
    }
}

/// The nodes stand in strictly ascending order.
pub open spec fn sorted<K: Key, V>(nodes: Seq<Node<K, V>>) -> bool {
    forall|i: int, j: int|
        0 <= i < j < nodes.len() ==> node_lt(#[trigger] nodes[i], #[trigger] nodes[j])
}

/// The map's keys are the keys of the nodes.
pub proof fn lemma_contents_dom<K, V>(nodes: Seq<Node<K, V>>, key: K)
    ensures
        contents(nodes).contains_key(key) == has_key(nodes, key),
{
}

/// With distinct keys, the map holds at each node's key that node's value.
pub proof fn lemma_contents_at<K, V>(nodes: Seq<Node<K, V>>, i: int)
    requires
        distinct_keys(nodes),
        0 <= i < nodes.len(),
    ensures
        contents(nodes).contains_key(nodes[i].key),
        contents(nodes)[nodes[i].key] == nodes[i].value,
        position(nodes, nodes[i].key) == i,
{
    let k = nodes[i].key;
    assert(has_key(nodes, k));
    let p = position(nodes, k);
    assert(0 <= p < nodes.len() && nodes[p].key == k);
    if p < i {
        assert(nodes[p].key != nodes[i].key);
    } else if i < p {
        assert(nodes[i].key != nodes[p].key);
    }
}

/// The empty sequence is the empty map.
pub proof fn lemma_contents_empty<K, V>()
    ensures
        contents(Seq::<Node<K, V>>::empty()) == Map::<K, V>::empty(),
{
    assert(contents(Seq::<Node<K, V>>::empty()) =~= Map::<K, V>::empty());
}

/// Appending a node with a new key inserts that key.
pub proof fn lemma_contents_push<K, V>(nodes: Seq<Node<K, V>>, node: Node<K, V>)
    requires
        distinct_keys(nodes),
        !has_key(nodes, node.key),
    ensures
        distinct_keys(nodes.push(node)),
        contents(nodes.push(node)) == contents(nodes).insert(node.key, node.value),
{
    lemma_contents_insert(nodes, nodes.len() as int, node);
    assert(nodes.push(node) =~= nodes.insert(nodes.len() as int, node));
}

/// Putting a node with a new key anywhere into the sequence inserts that key.
pub proof fn lemma_contents_insert<K, V>(nodes: Seq<Node<K, V>>, at: int, node: Node<K, V>)
    requires
        distinct_keys(nodes),
        !has_key(nodes, node.key),
        0 <= at <= nodes.len(),
    ensures
        distinct_keys(nodes.insert(at, node)),
        contents(nodes.insert(at, node)) == contents(nodes).insert(node.key, node.value),
{
    let after = nodes.insert(at, node);
    assert forall|i: int, j: int| 0 <= i < j < after.len() implies (#[trigger] after[i]).key != (
    #[trigger] after[j]).key by {
        let oi = if i < at { i } else { i - 1 };
        let oj = if j < at { j } else { j - 1 };
        if i == at {
            assert(after[j] == nodes[oj]);
        } else if j == at {
            assert(after[i] == nodes[oi]);
        } else {
            assert(after[i] == nodes[oi]);
            assert(after[j] == nodes[oj]);
        }
    }
    let m = contents(nodes).insert(node.key, node.value);
    assert forall|k: K| contents(after).contains_key(k) == m.contains_key(k) by {
        if has_key(after, k) {
            let i = position(after, k);
            if i != at {
                let oi = if i < at { i } else { i - 1 };
                assert(nodes[oi].key == k);
            }
        }
        if has_key(nodes, k) {
            let i = position(nodes, k);
            let ni = if i < at { i } else { i + 1 };
            assert(after[ni].key == k);
        }
        if k == node.key {
            assert(after[at].key == k);
        }
    }
    assert forall|k: K| contents(after).contains_key(k) implies contents(after)[k] == m[k] by {
        let i = position(after, k);
        lemma_contents_at(after, i);
        if i != at {
            let oi = if i < at { i } else { i - 1 };
            assert(after[i] == nodes[oi]);
            lemma_contents_at(nodes, oi);
        }
    }
    assert(contents(after) =~= m);
}

/// Replacing the value of the node at `i` overwrites its key's value.
pub proof fn lemma_contents_update<K, V>(nodes: Seq<Node<K, V>>, i: int, node: Node<K, V>)
    requires
        distinct_keys(nodes),
        0 <= i < nodes.len(),
        node.key == nodes[i].key,
    ensures
        distinct_keys(nodes.update(i, node)),
        contents(nodes.update(i, node)) == contents(nodes).insert(node.key, node.value),
{
    let after = nodes.update(i, node);
    assert forall|a: int, b: int| 0 <= a < b < after.len() implies (#[trigger] after[a]).key != (
    #[trigger] after[b]).key by {
        assert(after[a].key == nodes[a].key);
        assert(after[b].key == nodes[b].key);
    }
    let m = contents(nodes).insert(node.key, node.value);
    assert forall|k: K| contents(after).contains_key(k) == m.contains_key(k) by {
        if has_key(after, k) {
            let p = position(after, k);
            assert(nodes[p].key == k);
        }
        if has_key(nodes, k) {
            let p = position(nodes, k);
            assert(after[p].key == k);
        }
        if k == node.key {
            assert(after[i].key == k);
        }
    }
    assert forall|k: K| contents(after).contains_key(k) implies contents(after)[k] == m[k] by {
        let p = position(after, k);
        lemma_contents_at(after, p);
        if p != i {
            assert(after[p] == nodes[p]);
            lemma_contents_at(nodes, p);
        }
    }
    assert(contents(after) =~= m);
}

/// Taking the node at `i` out removes its key.
pub proof fn lemma_contents_remove<K, V>(nodes: Seq<Node<K, V>>, i: int)
    requires
        distinct_keys(nodes),
        0 <= i < nodes.len(),
    ensures
        distinct_keys(nodes.remove(i)),
        contents(nodes.remove(i)) == contents(nodes).remove(nodes[i].key),
        !has_key(nodes.remove(i), nodes[i].key),
{
    let after = nodes.remove(i);
    let gone = nodes[i].key;
    assert forall|a: int, b: int| 0 <= a < b < after.len() implies (#[trigger] after[a]).key != (
    #[trigger] after[b]).key by {
        let oa = if a < i { a } else { a + 1 };
        let ob = if b < i { b } else { b + 1 };
        assert(after[a] == nodes[oa]);
        assert(after[b] == nodes[ob]);
    }
    if has_key(after, gone) {
        let p = position(after, gone);
        let op = if p < i { p } else { p + 1 };
        assert(after[p] == nodes[op]);
        if op < i {
            assert(nodes[op].key != nodes[i].key);
        } else {
            assert(nodes[i].key != nodes[op].key);
        }
    }
    let m = contents(nodes).remove(gone);
    assert forall|k: K| contents(after).contains_key(k) == m.contains_key(k) by {
        if has_key(after, k) {
            let p = position(after, k);
            let op = if p < i { p } else { p + 1 };
            assert(after[p] == nodes[op]);
            assert(nodes[op].key == k);
        }
        if has_key(nodes, k) && k != gone {
            let p = position(nodes, k);
            let np = if p < i { p } else { p - 1 };
            assert(after[np] == nodes[p]);
            assert(after[np].key == k);
        }
    }
    assert forall|k: K| contents(after).contains_key(k) implies contents(after)[k] == m[k] by {
        let p = position(after, k);
        lemma_contents_at(after, p);
        let op = if p < i { p } else { p + 1 };
        assert(after[p] == nodes[op]);
        lemma_contents_at(nodes, op);
    }
    assert(contents(after) =~= m);
}

/// Going one node further towards the front of a sequence with distinct keys
/// inserts that node's key into the map of what lies behind it.
pub proof fn lemma_contents_skip<K, V>(nodes: Seq<Node<K, V>>, n: int)
    requires
        distinct_keys(nodes),
        0 < n <= nodes.len(),
    ensures
        distinct_keys(nodes.skip(n)),
        !has_key(nodes.skip(n), nodes[n - 1].key),
        contents(nodes.skip(n - 1)) == contents(nodes.skip(n)).insert(
            nodes[n - 1].key,
            nodes[n - 1].value,
        ),
{
    let rest = nodes.skip(n);
    assert forall|i: int, j: int| 0 <= i < j < rest.len() implies (#[trigger] rest[i]).key != (
    #[trigger] rest[j]).key by {
        assert(rest[i] == nodes[i + n]);
        assert(rest[j] == nodes[j + n]);
    }
    if has_key(rest, nodes[n - 1].key) {
        let p = position(rest, nodes[n - 1].key);
        assert(rest[p] == nodes[p + n]);
        assert(nodes[n - 1].key != nodes[p + n].key);
    }
    lemma_contents_insert(rest, 0, nodes[n - 1]);
    assert(nodes.skip(n - 1) =~= rest.insert(0, nodes[n - 1]));
}

/// Putting a node between the nodes that sort before it and those that sort
/// after it keeps the sequence in order.
pub proof fn lemma_sorted_insert<K: Key, V>(nodes: Seq<Node<K, V>>, at: int, node: Node<K, V>)
    requires
        sorted(nodes),
        hashes_agree(nodes),
        node.hash == node.key.spec_hash(),
        0 <= at <= nodes.len(),
        forall|j: int| 0 <= j < at ==> node_lt(#[trigger] nodes[j], node),
        forall|j: int| at <= j < nodes.len() ==> node_lt(node, #[trigger] nodes[j]),
    ensures
        sorted(nodes.insert(at, node)),
        hashes_agree(nodes.insert(at, node)),
{
    let after = nodes.insert(at, node);
    assert forall|i: int, j: int| 0 <= i < j < after.len() implies node_lt(
        #[trigger] after[i],
        #[trigger] after[j],
    ) by {
        let oi = if i < at { i } else { i - 1 };
        let oj = if j < at { j } else { j - 1 };
        if i == at {
            assert(after[j] == nodes[oj]);
        } else if j == at {
            assert(after[i] == nodes[oi]);
        } else {
            assert(after[i] == nodes[oi]);
            assert(after[j] == nodes[oj]);
            assert(node_lt(nodes[oi], nodes[oj]));
        }
    }
    assert forall|i: int| 0 <= i < after.len() implies (#[trigger] after[i]).hash
        == after[i].key.spec_hash() by {
        if i != at {
            let oi = if i < at { i } else { i - 1 };
            assert(after[i] == nodes[oi]);
        }
    }
}

/// The keys of nodes with distinct keys hold no key twice, and hold the
/// keys of the map.
pub proof fn lemma_key_seq<K, V>(nodes: Seq<Node<K, V>>)
    requires
        distinct_keys(nodes),
    ensures
        key_seq(nodes).no_duplicates(),
        forall|k: K| #[trigger] key_seq(nodes).contains(k) <==> contents(nodes).contains_key(k),
{
    let ks = key_seq(nodes);
    assert forall|i: int, j: int| 0 <= i < ks.len() && 0 <= j < ks.len() && i != j implies ks[i]
        != ks[j] by {
        if i < j {
            assert(nodes[i].key != nodes[j].key);
        } else {
            assert(nodes[j].key != nodes[i].key);
        }
    }
    assert forall|k: K| #[trigger] ks.contains(k) <==> contents(nodes).contains_key(k) by {
        if ks.contains(k) {
            let i = choose|i: int| 0 <= i < ks.len() && ks[i] == k;
            assert(nodes[i].key == k);
        }
        if has_key(nodes, k) {
            let i = position(nodes, k);
            assert(ks[i] == k);
        }
    }
}

/// Replacing a node by one with the same hash and key keeps the hashes in
/// agreement with the keys, and a sorted sequence in order.
pub proof fn lemma_update_keeps_order<K: Key, V>(nodes: Seq<Node<K, V>>, i: int, node: Node<K, V>)
    requires
        hashes_agree(nodes),
        0 <= i < nodes.len(),
        node.key == nodes[i].key,
        node.hash == nodes[i].hash,
    ensures
        hashes_agree(nodes.update(i, node)),
        sorted(nodes) ==> sorted(nodes.update(i, node)),
{
    let after = nodes.update(i, node);
    assert forall|a: int| 0 <= a < after.len() implies (#[trigger] after[a]).hash
        == after[a].key.spec_hash() by {
        assert(after[a].key == nodes[a].key);
        assert(after[a].hash == nodes[a].hash);
    }
    if sorted(nodes) {
        assert forall|a: int, b: int| 0 <= a < b < after.len() implies node_lt(
            #[trigger] after[a],
            #[trigger] after[b],
        ) by {
            assert(node_lt(nodes[a], nodes[b]));
        }
    }
}

} // verus!
