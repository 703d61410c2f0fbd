//! Bins: the unit of collision resolution.

use vstd::prelude::*;
use crate::key::Key;
use crate::node::{
    borrowed, contents, distinct_keys, entry_lt, has_key, hashes_agree, key_seq,
    lemma_contents_at, lemma_contents_dom, lemma_contents_empty, lemma_contents_insert,
    lemma_contents_push, lemma_contents_remove, lemma_contents_skip, lemma_contents_update,
    lemma_entry_lt_transitive, lemma_sorted_insert, lemma_update_keeps_order, node_lt, position,
    sorted, Node,
};

verus! {

/// A chain this long is rebuilt as a sorted bin, where the table is large
/// enough.
pub const PROMOTE_THRESHOLD: usize = 8;

/// A sorted bin that shrinks to this length is rebuilt as a chain.
pub const DEMOTE_THRESHOLD: usize = 6;

/// One bucket of a table.
///
/// `Chain` is searched front to back. `Sorted` keeps its nodes in ascending
/// order, by hash and then by key, and is searched by bisection. `Moved`
/// stands in a bin of a table that is being replaced, once that bin's nodes
/// have been carried over to the next table.
pub enum Bin<K, V> {
    Empty,
    Moved,
    Chain(Vec<Node<K, V>>),
    Sorted(Vec<Node<K, V>>),
}

impl<K: Key, V> Bin<K, V> {
    /// The nodes held, in the order they stand.
    pub open spec fn nodes(&self) -> Seq<Node<K, V>> {
        match self {
            Bin::Chain(v) => v@,
            Bin::Sorted(v) => v@,
            _ => Seq::empty(),
        }
    }

    /// The entries held, as a map.
    pub open spec fn view(&self) -> Map<K, V> {
        contents(self.nodes())
    }

    /// The bin's invariant: no key twice, every hash that of its key, no
    /// empty chain, and a sorted bin in order and longer than
    /// `DEMOTE_THRESHOLD`.
    pub open spec fn wf(&self) -> bool {
        &&& distinct_keys(self.nodes())
        &&& hashes_agree(self.nodes())
        &&& (self is Chain ==> self.nodes().len() > 0)
        &&& (self is Sorted ==> self.nodes().len() > DEMOTE_THRESHOLD && sorted(self.nodes()))
    }

    /// The number of nodes held.
    pub fn len(&self) -> (n: usize)
        ensures
            n == self.nodes().len(),
    {
        match self {
            Bin::Chain(v) => v.len(),
            Bin::Sorted(v) => v.len(),
            _ => 0,
        }
    }
}

impl<K: Key, V> Bin<K, V> {
    /// Finds the node that holds `key`: front to back in a chain, by
    /// bisection in a sorted bin.
    pub fn find(&self, hash: u64, key: &K) -> (r: Option<usize>)
        requires
            self.wf(),
            hash == key.spec_hash(),
        ensures
            match r {
                Some(i) => i < self.nodes().len() && self.nodes()[i as int].key == *key,
                None => !has_key(self.nodes(), *key),
            },
            r is Some <==> self@.contains_key(*key),
    {
        match self {
            Bin::Chain(v) => search_chain(v, hash, key),
            Bin::Sorted(v) => {
                let (found, at) = search_sorted(v, hash, key);
                if found {
                    Some(at)
                } else {
                    None
                }
            },
            _ => None,
        }
    }

    /// Looks `key` up and gives the node that holds it.
    pub fn get(&self, hash: u64, key: &K) -> (r: Option<&Node<K, V>>)
        requires
            self.wf(),
            hash == key.spec_hash(),
        ensures
            r is Some <==> self@.contains_key(*key),
            r matches Some(n) ==> n.key == *key && n.hash == hash && n.value == self@[*key],
    {
        match self {
            Bin::Chain(v) => {
                match search_chain(v, hash, key) {
                    Some(i) => {
                        proof {
                            lemma_contents_at(v@, i as int);
                        }
                        Some(&v[i])
                    },
                    None => None,
                }
            },
            Bin::Sorted(v) => {
                let (found, at) = search_sorted(v, hash, key);
                if found {
                    proof {
                        lemma_contents_at(v@, at as int);
                    }
                    Some(&v[at])
                } else {
                    None
                }
            },
            _ => None,
        }
    }
}

impl<K: Key, V> Bin<K, V> {
    /// Stores `value` under `key`: in the node that holds `key` already,
    /// else in a new node. Gives the value that was stored before.
    pub fn put(&mut self, hash: u64, key: K, value: V) -> (prev: Option<V>)
        requires
            old(self).wf(),
            !(*old(self) is Moved),
            hash == key.spec_hash(),
        ensures
            final(self).wf(),
            *final(self) is Sorted <==> *old(self) is Sorted,
            !(*final(self) is Moved) && !(*final(self) is Empty),
            final(self)@ == old(self)@.insert(key, value),
            prev == old(self)@.get(key),
            final(self).nodes().len() == old(self).nodes().len() + (if prev is None {
                1int
            } else {
                0int
            }),
    {
        let mut taken = Bin::Empty;
        core::mem::swap(self, &mut taken);
        let ghost before = taken.nodes();
        match taken {
            Bin::Chain(mut v) => {
                match search_chain(&v, hash, &key) {
                    Some(i) => {
                        let prev = swap_value(&mut v, i, value);
                        proof {
                            lemma_contents_at(before, i as int);
                            lemma_contents_update(before, i as int, v@[i as int]);
                            lemma_update_keeps_order(before, i as int, v@[i as int]);
                        }
                        *self = Bin::Chain(v);
                        Some(prev)
                    },
                    None => {
                        proof {
                            lemma_contents_push(before, Node { hash, key, value });
                        }
                        v.push(Node { hash, key, value });
                        *self = Bin::Chain(v);
                        None
                    },
                }
            },
            Bin::Sorted(mut v) => {
                let (found, at) = search_sorted(&v, hash, &key);
                if found {
                    let prev = swap_value(&mut v, at, value);
                    proof {
                        lemma_contents_at(before, at as int);
                        lemma_contents_update(before, at as int, v@[at as int]);
                        lemma_update_keeps_order(before, at as int, v@[at as int]);
                    }
                    *self = Bin::Sorted(v);
                    Some(prev)
                } else {
                    proof {
                        lemma_contents_insert(before, at as int, Node { hash, key, value });
                        lemma_sorted_insert(before, at as int, Node { hash, key, value });
                    }
                    v.insert(at, Node { hash, key, value });
                    *self = Bin::Sorted(v);
                    None
                }
            },
            _ => {
                let mut v: Vec<Node<K, V>> = Vec::new();
                proof {
                    assert(before =~= v@);
                    lemma_contents_push(before, Node { hash, key, value });
                }
                v.push(Node { hash, key, value });
                *self = Bin::Chain(v);
                None
            },
        }
    }
}

impl<K: Key, V> Bin<K, V> {
    /// The node at place `at`.
    pub fn node_at(&self, at: usize) -> (node: &Node<K, V>)
        requires
            at < self.nodes().len(),
        ensures
            *node == self.nodes()[at as int],
    {
        match self {
            Bin::Chain(v) => &v[at],
            Bin::Sorted(v) => &v[at],
            _ => vstd::pervasive::unreached(),
        }
    }

    /// Stores `value` in the node at place `at` and gives the value that
    /// was there. The key stays the one that is stored.
    pub fn set_value(&mut self, at: usize, value: V) -> (prev: V)
        requires
            old(self).wf(),
            at < old(self).nodes().len(),
        ensures
            final(self).wf(),
            !(*final(self) is Moved),
            *final(self) is Sorted <==> *old(self) is Sorted,
            final(self).nodes().len() == old(self).nodes().len(),
            prev == old(self).nodes()[at as int].value,
            final(self)@ == old(self)@.insert(old(self).nodes()[at as int].key, value),
    {
        let mut taken = Bin::Empty;
        core::mem::swap(self, &mut taken);
        let ghost before = taken.nodes();
        let (mut v, sorted_bin) = match taken {
            Bin::Chain(v) => (v, false),
            Bin::Sorted(v) => (v, true),
            _ => (Vec::new(), false),
        };
        let prev = swap_value(&mut v, at, value);
        proof {
            lemma_contents_update(before, at as int, v@[at as int]);
            lemma_update_keeps_order(before, at as int, v@[at as int]);
        }
        if sorted_bin {
            *self = Bin::Sorted(v);
        } else {
            *self = Bin::Chain(v);
        }
        prev
    }

    /// Takes the node at place `at` out of the bin. A sorted bin that is
    /// left with `DEMOTE_THRESHOLD` nodes or fewer becomes a chain.
    pub fn remove_at(&mut self, at: usize) -> (node: Node<K, V>)
        requires
            old(self).wf(),
            at < old(self).nodes().len(),
        ensures
            final(self).wf(),
            !(*final(self) is Moved),
            *final(self) is Sorted <==> *old(self) is Sorted && final(self).nodes().len()
                > DEMOTE_THRESHOLD,
            node == old(self).nodes()[at as int],
            final(self).nodes() == old(self).nodes().remove(at as int),
            final(self)@ == old(self)@.remove(node.key),
            old(self)@.contains_key(node.key),
            old(self)@[node.key] == node.value,
    {
        let mut taken = Bin::Empty;
        core::mem::swap(self, &mut taken);
        let ghost before = taken.nodes();
        let ghost was_sorted = taken is Sorted;
        proof {
            lemma_contents_at(before, at as int);
            lemma_contents_remove(before, at as int);
        }
        let (mut v, sorted_bin) = match taken {
            Bin::Chain(v) => (v, false),
            Bin::Sorted(v) => (v, true),
            _ => (Vec::new(), false),
        };
        let node = v.remove(at);
        proof {
            assert forall|a: int| 0 <= a < v@.len() implies (#[trigger] v@[a]).hash
                == v@[a].key.spec_hash() by {
                let oa = if a < at { a } else { a + 1 };
                assert(v@[a] == before[oa]);
            }
            if was_sorted {
                assert forall|a: int, b: int| 0 <= a < b < v@.len() implies node_lt(
                    #[trigger] v@[a],
                    #[trigger] v@[b],
                ) by {
                    let oa = if a < at { a } else { a + 1 };
                    let ob = if b < at { b } else { b + 1 };
                    assert(v@[a] == before[oa]);
                    assert(v@[b] == before[ob]);
                    assert(node_lt(before[oa], before[ob]));
                }
            }
        }
        if v.len() == 0 {
            proof {
                assert(v@ =~= Seq::<Node<K, V>>::empty());
            }
            *self = Bin::Empty;
        } else if sorted_bin && v.len() > DEMOTE_THRESHOLD {
            *self = Bin::Sorted(v);
        } else {
            *self = Bin::Chain(v);
        }
        node
    }

    /// Takes the node that holds `key` out of the bin. A sorted bin that is
    /// left with `DEMOTE_THRESHOLD` nodes or fewer becomes a chain.
    pub fn take(&mut self, hash: u64, key: &K) -> (r: Option<Node<K, V>>)
        requires
            old(self).wf(),
            hash == key.spec_hash(),
        ensures
            final(self).wf(),
            *final(self) is Moved <==> *old(self) is Moved,
            *final(self) is Sorted <==> *old(self) is Sorted && final(self).nodes().len()
                > DEMOTE_THRESHOLD,
            final(self)@ == old(self)@.remove(*key),
            r is Some <==> old(self)@.contains_key(*key),
            r matches Some(n) ==> n.key == *key && n.hash == hash && n.value == old(self)@[*key],
            final(self).nodes().len() == old(self).nodes().len() - (if r is Some {
                1int
            } else {
                0int
            }),
    {
        match self.find(hash, key) {
            None => {
                proof {
                    assert(self@.remove(*key) =~= self@);
                }
                None
            },
            Some(at) => Some(self.remove_at(at)),
        }
    }
}

/// The keys that stay at their index when a table of `bit` bins is doubled.
pub open spec fn low_keys<K: Key>(bit: u64) -> Set<K> {
    Set::new(|k: K| k.spec_hash() & bit == 0)
}

/// The keys that go `bit` bins further up when a table of `bit` bins is
/// doubled.
pub open spec fn high_keys<K: Key>(bit: u64) -> Set<K> {
    Set::new(|k: K| k.spec_hash() & bit != 0)
}

impl<K: Key, V> Bin<K, V> {
    /// Rebuilds a chain as a sorted bin. The entries stay what they are.
    pub fn promote(&mut self)
        requires
            old(self).wf(),
            *old(self) is Chain,
            old(self).nodes().len() > DEMOTE_THRESHOLD,
        ensures
            final(self).wf(),
            *final(self) is Sorted,
            final(self)@ == old(self)@,
            final(self).nodes().len() == old(self).nodes().len(),
    {
        let mut taken = Bin::Empty;
        core::mem::swap(self, &mut taken);
        let ghost before = taken.nodes();
        let mut v = match taken {
            Bin::Chain(v) => v,
            _ => Vec::new(),
        };
        let mut out: Vec<Node<K, V>> = Vec::new();
        proof {
            assert(before.skip(before.len() as int) =~= out@);
        }
        while v.len() > 0
            invariant
                distinct_keys(before),
                hashes_agree(before),
                v@ == before.take(v@.len() as int),
                v@.len() <= before.len(),
                out@.len() == before.len() - v@.len(),
                sorted(out@),
                hashes_agree(out@),
                distinct_keys(out@),
                contents(out@) == contents(before.skip(v@.len() as int)),
            decreases v.len(),
        {
            let ghost n = v@.len() as int;
            let node = v.pop().unwrap();
            proof {
                assert(node == before[n - 1]);
                lemma_contents_skip(before, n);
                assert(v@ =~= before.take(n - 1));
                lemma_contents_dom(before.skip(n), node.key);
                lemma_contents_dom(out@, node.key);
            }
            sorted_insert(&mut out, node);
        }
        proof {
            assert(before.skip(0) =~= before);
        }
        *self = Bin::Sorted(out);
    }

    /// Parts the bin in two for a table twice the size: the entries whose
    /// hash has `bit` clear, and those whose hash has it set. Each half of a
    /// sorted bin stays sorted if it holds more than `DEMOTE_THRESHOLD`
    /// nodes, and else becomes a chain.
    pub fn split(self, bit: u64) -> (halves: (Bin<K, V>, Bin<K, V>))
        requires
            self.wf(),
        ensures
            halves.0.wf(),
            halves.1.wf(),
            !(halves.0 is Moved) && !(halves.1 is Moved),
            halves.0@ == self@.restrict(low_keys(bit)),
            halves.1@ == self@.restrict(high_keys(bit)),
            halves.0.nodes().len() + halves.1.nodes().len() == self.nodes().len(),
            halves.0 is Sorted ==> self is Sorted,
            halves.1 is Sorted ==> self is Sorted,
    {
        let ghost before = self.nodes();
        let (mut v, sorted_bin) = match self {
            Bin::Chain(v) => (v, false),
            Bin::Sorted(v) => (v, true),
            _ => (Vec::new(), false),
        };
        let mut lo: Vec<Node<K, V>> = Vec::new();
        let mut hi: Vec<Node<K, V>> = Vec::new();
        proof {
            assert(before.skip(before.len() as int) =~= lo@);
            lemma_contents_empty::<K, V>();
            assert(contents(lo@) =~= contents(before.skip(v@.len() as int)).restrict(
                low_keys(bit),
            ));
            assert(contents(hi@) =~= contents(before.skip(v@.len() as int)).restrict(
                high_keys(bit),
            ));
        }
        while v.len() > 0
            invariant
                distinct_keys(before),
                hashes_agree(before),
                v@ == before.take(v@.len() as int),
                v@.len() <= before.len(),
                lo@.len() + hi@.len() == before.len() - v@.len(),
                sorted(lo@),
                hashes_agree(lo@),
                distinct_keys(lo@),
                sorted(hi@),
                hashes_agree(hi@),
                distinct_keys(hi@),
                contents(lo@) == contents(before.skip(v@.len() as int)).restrict(low_keys(bit)),
                contents(hi@) == contents(before.skip(v@.len() as int)).restrict(high_keys(bit)),
            decreases v.len(),
        {
            let ghost n = v@.len() as int;
            let ghost rest = contents(before.skip(n));
            let node = v.pop().unwrap();
            proof {
                assert(node == before[n - 1]);
                lemma_contents_skip(before, n);
                assert(v@ =~= before.take(n - 1));
                lemma_contents_dom(before.skip(n), node.key);
                lemma_contents_dom(lo@, node.key);
                lemma_contents_dom(hi@, node.key);
                assert(!rest.contains_key(node.key));
            }
            if node.hash & bit == 0 {
                proof {
                    assert(rest.insert(node.key, node.value).restrict(low_keys(bit))
                        =~= rest.restrict(low_keys(bit)).insert(node.key, node.value));
                    assert(rest.insert(node.key, node.value).restrict(high_keys(bit))
                        =~= rest.restrict(high_keys(bit)));
                }
                sorted_insert(&mut lo, node);
            } else {
                proof {
                    assert(rest.insert(node.key, node.value).restrict(high_keys(bit))
                        =~= rest.restrict(high_keys(bit)).insert(node.key, node.value));
                    assert(rest.insert(node.key, node.value).restrict(low_keys(bit))
                        =~= rest.restrict(low_keys(bit)));
                }
                sorted_insert(&mut hi, node);
            }
        }
        proof {
            assert(before.skip(0) =~= before);
        }
        (Self::from_sorted(lo, sorted_bin), Self::from_sorted(hi, sorted_bin))
    }

    /// Wraps sorted nodes as a bin: empty, a chain, or where `sorted_bin` allows
    /// it and there are enough of them, a sorted bin.
    fn from_sorted(v: Vec<Node<K, V>>, sorted_bin: bool) -> (bin: Bin<K, V>)
        requires
            sorted(v@),
            hashes_agree(v@),
            distinct_keys(v@),
        ensures
            bin.wf(),
            bin.nodes() == v@,
            !(bin is Moved),
            bin is Sorted ==> sorted_bin,
    {
        if v.len() == 0 {
            proof {
                assert(v@ =~= Seq::<Node<K, V>>::empty());
            }
            Bin::Empty
        } else if sorted_bin && v.len() > DEMOTE_THRESHOLD {
            Bin::Sorted(v)
        } else {
            Bin::Chain(v)
        }
    }
}

impl<K: Key, V> Bin<K, V> {
    /// Appends a borrow of every key in the bin to `out`, in the order the
    /// nodes stand.
    pub fn collect_keys<'g>(&'g self, out: &mut Vec<&'g K>)
        ensures
            borrowed(final(out)@) == borrowed(old(out)@) + key_seq(self.nodes()),
    {
        let ghost start = borrowed(out@);
        match self {
            Bin::Chain(v) => {
                Self::collect_from(v, out);
            },
            Bin::Sorted(v) => {
                Self::collect_from(v, out);
            },
            _ => {
                proof {
                    assert(borrowed(out@) =~= start + key_seq(self.nodes()));
                }
            },
        }
    }

    /// Appends a borrow of every key in `v` to `out`.
    fn collect_from<'g>(v: &'g Vec<Node<K, V>>, out: &mut Vec<&'g K>)
        ensures
            borrowed(final(out)@) == borrowed(old(out)@) + key_seq(v@),
    {
        let ghost start = borrowed(out@);
        let mut t: usize = 0;
        proof {
            assert(borrowed(out@) =~= start + key_seq(v@.take(0)));
        }
        while t < v.len()
            invariant
                t <= v.len(),
                borrowed(out@) == start + key_seq(v@.take(t as int)),
            decreases v.len() - t,
        {
            let ghost prior = out@;
            out.push(&v[t].key);
            proof {
                assert(out@ == prior.push(&v@[t as int].key));
                assert(borrowed(out@) =~= start + key_seq(v@.take(t as int + 1))) by {
                    let a = borrowed(out@);
                    let b = start + key_seq(v@.take(t as int + 1));
                    assert(borrowed(prior).len() == prior.len());
                    assert((start + key_seq(v@.take(t as int))).len() == start.len() + t);
                    assert(a.len() == b.len());
                    assert forall|x: int| 0 <= x < a.len() implies a[x] == b[x] by {
                        if x < prior.len() {
                            assert(out@[x] == prior[x]);
                            assert(borrowed(prior)[x] == (start + key_seq(v@.take(t as int)))[x]);
                        }
                    }
                }
            }
            t = t + 1;
        }
        proof {
            assert(v@.take(v@.len() as int) =~= v@);
        }
    }
}

/// Finds `key` in a chain, front to back, comparing hashes before keys.
fn search_chain<K: Key, V>(v: &Vec<Node<K, V>>, hash: u64, key: &K) -> (r: Option<usize>)
    requires
        hashes_agree(v@),
        hash == key.spec_hash(),
    ensures
        match r {
            Some(i) => i < v@.len() && v@[i as int].key == *key,
            None => !has_key(v@, *key),
        },
{
    let mut i: usize = 0;
    while i < v.len()
        invariant
            i <= v.len(),
            hashes_agree(v@),
            hash == key.spec_hash(),
            forall|j: int| 0 <= j < i ==> (#[trigger] v@[j]).key != *key,
        decreases v.len() - i,
    {
        if v[i].hash == hash && v[i].key.key_eq(key) {
            return Some(i);
        }
        i += 1;
    }
    None
}

/// Stores `value` in the node at place `at` and gives the value that was
/// there.
fn swap_value<K, V>(v: &mut Vec<Node<K, V>>, at: usize, value: V) -> (prev: V)
    requires
        at < old(v)@.len(),
    ensures
        final(v)@ == old(v)@.update(
            at as int,
            (Node { hash: old(v)@[at as int].hash, key: old(v)@[at as int].key, value }),
        ),
        prev == old(v)@[at as int].value,
{
    let mut value = value;
    core::mem::swap(&mut v[at].value, &mut value);
    value
}

/// Puts a node with a new key into a sorted vector, at its place.
fn sorted_insert<K: Key, V>(v: &mut Vec<Node<K, V>>, node: Node<K, V>)
    requires
        sorted(old(v)@),
        hashes_agree(old(v)@),
        distinct_keys(old(v)@),
        node.hash == node.key.spec_hash(),
        !has_key(old(v)@, node.key),
    ensures
        sorted(final(v)@),
        hashes_agree(final(v)@),
        distinct_keys(final(v)@),
        contents(final(v)@) == contents(old(v)@).insert(node.key, node.value),
        final(v)@.len() == old(v)@.len() + 1,
{
    let (_found, at) = search_sorted(v, node.hash, &node.key);
    proof {
        lemma_contents_insert(v@, at as int, node);
        lemma_sorted_insert(v@, at as int, node);
    }
    v.insert(at, node);
}

/// Finds `key` in a sorted vector by bisection. Gives its place where it is
/// found, and else the place at which it would have to be put.
fn search_sorted<K: Key, V>(v: &Vec<Node<K, V>>, hash: u64, key: &K) -> (r: (bool, usize))
    requires
        sorted(v@),
        hashes_agree(v@),
        hash == key.spec_hash(),
    ensures
        r.1 <= v@.len(),
        r.0 ==> r.1 < v@.len() && v@[r.1 as int].key == *key,
        !r.0 ==> !has_key(v@, *key),
        forall|j: int| 0 <= j < r.1 ==> entry_lt((#[trigger] v@[j]).hash, v@[j].key, hash, *key),
        forall|j: int|
            r.1 <= j < v@.len() && !(r.0 && j == r.1) ==> entry_lt(
                hash,
                *key,
                (#[trigger] v@[j]).hash,
                v@[j].key,
            ),
{
    let mut lo: usize = 0;
    let mut hi: usize = v.len();
    while lo < hi
        invariant
            lo <= hi <= v.len(),
            sorted(v@),
            hashes_agree(v@),
            hash == key.spec_hash(),
            forall|j: int| 0 <= j < lo ==> entry_lt((#[trigger] v@[j]).hash, v@[j].key, hash, *key),
            forall|j: int|
                hi <= j < v@.len() ==> entry_lt(hash, *key, (#[trigger] v@[j]).hash, v@[j].key),
        decreases hi - lo,
    {
        let mid: usize = lo + (hi - lo) / 2;
        let m = &v[mid];
        if m.hash < hash || (m.hash == hash && m.key.key_lt(key)) {
            proof {
                assert forall|j: int| 0 <= j < mid + 1 implies entry_lt(
                    (#[trigger] v@[j]).hash,
                    v@[j].key,
                    hash,
                    *key,
                ) by {
                    if j < mid {
                        assert(node_lt(v@[j], v@[mid as int]));
                        lemma_entry_lt_transitive(
                            v@[j].hash,
                            v@[j].key,
                            m.hash,
                            m.key,
                            hash,
                            *key,
                        );
                    }
                }
            }
            lo = mid + 1;
        } else if hash < m.hash || (hash == m.hash && key.key_lt(&m.key)) {
            proof {
                assert forall|j: int| mid <= j < v@.len() implies entry_lt(
                    hash,
                    *key,
                    (#[trigger] v@[j]).hash,
                    v@[j].key,
                ) by {
                    if mid < j {
                        assert(node_lt(v@[mid as int], v@[j]));
                        lemma_entry_lt_transitive(
                            hash,
                            *key,
                            m.hash,
                            m.key,
                            v@[j].hash,
                            v@[j].key,
                        );
                    }
                }
            }
            hi = mid;
        } else {
            proof {
                K::lemma_lt_connected(key, &m.key);
                assert forall|j: int| mid < j < v@.len() implies entry_lt(
                    hash,
                    *key,
                    (#[trigger] v@[j]).hash,
                    v@[j].key,
                ) by {
                    assert(node_lt(v@[mid as int], v@[j]));
                }
                assert forall|j: int| 0 <= j < mid implies entry_lt(
                    (#[trigger] v@[j]).hash,
                    v@[j].key,
                    hash,
                    *key,
                ) by {
                    assert(node_lt(v@[j], v@[mid as int]));
                }
            }
            return (true, mid);
        }
    }
    proof {
        if has_key(v@, *key) {
            let p = position(v@, *key);
            K::lemma_lt_irreflexive(key);
            if p < lo {
                assert(entry_lt(v@[p].hash, v@[p].key, hash, *key));
            } else {
                assert(entry_lt(hash, *key, v@[p].hash, v@[p].key));
            }
        }
    }
    (false, lo)
}

} // verus!
