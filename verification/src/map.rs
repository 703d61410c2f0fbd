//! The table engine: lookup, insertion and removal over bins, and the
//! stepwise move of all bins into a table twice the size.

use vstd::arithmetic::power2::{lemma2_to64, lemma_pow2_unfold, pow2};
use vstd::prelude::*;
use crate::bin::{high_keys, low_keys, Bin, PROMOTE_THRESHOLD};
use crate::ebr::Guard;
use crate::key::Key;
use crate::node::{borrowed, key_seq, lemma_contents_at, lemma_key_seq, position, Node};
use crate::table::{
    bins_wf, empty_bins, index_of, is_pow2, lemma_index_double, lemma_index_in_range,
    lemma_pow2_double, lemma_pow2_room, DEFAULT_CAPACITY, MAXIMUM_CAPACITY,
};

verus! {

/// Chains are rebuilt as sorted bins only in a table of at least this many
/// bins; a smaller table grows instead.
pub const MIN_PROMOTE_CAPACITY: usize = 64;

/// The number of bins that one operation carries over to the next table
/// while a resize is under way.
pub const TRANSFER_STRIDE: usize = 16;

/// A hash map over bins.
///
/// While a resize is under way the map owns two tables: `table`, and `next`
/// of twice the size. The bins of `table` below `cursor` have been carried
/// over and hold the forwarding marker; their entries are found in `next`.
/// `generation` counts the resizes that have been completed.
pub struct HashMap<K, V> {
    table: Vec<Bin<K, V>>,
    next: Vec<Bin<K, V>>,
    cursor: usize,
    count: usize,
    generation: usize,
}

impl<K: Key, V> Default for HashMap<K, V> {
    /// An empty map with `DEFAULT_CAPACITY` bins.
    fn default() -> (map: Self)
        ensures
            map.wf(),
            map@ == Map::<K, V>::empty(),
            map.spec_capacity() == DEFAULT_CAPACITY,
    {
        HashMap::new()
    }
}

/// The number of entries at which a table of `capacity` bins is due to
/// grow: three quarters of its bins.
pub open spec fn spec_threshold(capacity: nat) -> nat {
    (capacity - capacity / 4) as nat
}

impl<K: Key, V> HashMap<K, V> {
    /// The number of bins of the table of record.
    pub closed spec fn spec_capacity(&self) -> nat {
        self.table@.len()
    }

    /// Whether a resize is under way.
    pub closed spec fn resizing(&self) -> bool {
        self.next@.len() > 0
    }

    /// The number of resizes that have been completed.
    pub closed spec fn spec_generation(&self) -> nat {
        self.generation as nat
    }

    /// The table has as many bins as in `before`, or more, and as many
    /// resizes behind it, or more. It never shrinks.
    pub open spec fn grown_from(&self, before: &Self) -> bool {
        &&& self.spec_capacity() >= before.spec_capacity()
        &&& self.spec_generation() >= before.spec_generation()
    }

    /// The bin in which a key with this hash is looked for: the bin of the
    /// table of record, or behind a forwarding marker the bin of the next
    /// table.
    spec fn home(&self, hash: u64) -> Bin<K, V> {
        let i = index_of(hash, self.table@.len());
        if self.table@[i] is Moved {
            self.next@[index_of(hash, self.next@.len())]
        } else {
            self.table@[i]
        }
    }

    /// The entries of the map.
    pub closed spec fn view(&self) -> Map<K, V> {
        Map::new(
            |k: K| self.home(k.spec_hash())@.contains_key(k),
            |k: K| self.home(k.spec_hash())@[k],
        )
    }

    /// The invariant of the two tables, without the count.
    spec fn tables_wf(&self) -> bool {
        &&& 0 < self.table@.len() <= MAXIMUM_CAPACITY
        &&& is_pow2(self.table@.len() as u64)
        &&& self.table@.len() == DEFAULT_CAPACITY * pow2(self.generation as nat)
        &&& self.generation < self.table@.len()
        &&& bins_wf(self.table@)
        &&& forall|i: int|
            0 <= i < self.table@.len() ==> ((#[trigger] self.table@[i]) is Moved <==> i
                < self.cursor)
        &&& if self.next@.len() > 0 {
            &&& self.next@.len() == 2 * self.table@.len()
            &&& self.next@.len() <= MAXIMUM_CAPACITY
            &&& self.cursor < self.table@.len()
            &&& bins_wf(self.next@)
            &&& forall|i: int| 0 <= i < self.next@.len() ==> !((#[trigger] self.next@[i]) is Moved)
        } else {
            self.cursor == 0
        }
    }

    /// Both tables are well formed, and the count is the number of entries.
    spec fn inv(&self) -> bool {
        &&& self.tables_wf()
        &&& self@.dom().finite()
        &&& self.count == self@.dom().len()
    }

    /// The map's invariant: `inv`, and a table that has reached its
    /// threshold is being resized, unless it can grow no further.
    pub closed spec fn wf(&self) -> bool {
        &&& self.inv()
        &&& self.count >= spec_threshold(self.table@.len()) ==> self.next@.len() > 0
            || self.table@.len() == MAXIMUM_CAPACITY
    }

    /// A well formed map holds finitely many entries.
    pub proof fn lemma_finite(&self)
        requires
            self.wf(),
        ensures
            self@.dom().finite(),
    {
    }

    /// A well formed map below the largest capacity holds fewer entries
    /// than its threshold, or is being resized.
    pub proof fn lemma_load_bounded(&self)
        requires
            self.wf(),
        ensures
            self@.dom().finite(),
            self@.len() < spec_threshold(self.spec_capacity()) || self.resizing()
                || self.spec_capacity() == MAXIMUM_CAPACITY,
            0 < self.spec_capacity() <= MAXIMUM_CAPACITY,
            is_pow2(self.spec_capacity() as u64),
    {
    }

    /// Each completed resize has doubled the table.
    pub proof fn lemma_capacity_of_generation(&self)
        requires
            self.wf(),
        ensures
            self.spec_capacity() == DEFAULT_CAPACITY * pow2(self.spec_generation()),
    {
    }

    /// An empty map with `DEFAULT_CAPACITY` bins.
    pub fn new() -> (map: Self)
        ensures
            map.wf(),
            map@ == Map::<K, V>::empty(),
            map.spec_capacity() == DEFAULT_CAPACITY,
            map.spec_generation() == 0,
            !map.resizing(),
    {
        let map = HashMap {
            table: empty_bins(DEFAULT_CAPACITY),
            next: Vec::new(),
            cursor: 0,
            count: 0,
            generation: 0,
        };
        proof {
            lemma2_to64();
            assert(is_pow2(16)) by {
                assert(16u64 & ((16u64 - 1) as u64) == 0) by (bit_vector);
            }
            assert forall|k: K| !map.home(k.spec_hash())@.contains_key(k) by {
                let h = k.spec_hash();
                lemma_index_in_range(h, 16);
                let b = map.table@[index_of(h, 16)];
                assert(b is Empty);
                assert(b.nodes() =~= Seq::empty());
            }
            assert(map@ =~= Map::<K, V>::empty());
        }
        map
    }

    /// The number of entries.
    pub fn len(&self) -> (n: usize)
        requires
            self.wf(),
        ensures
            n == self@.len(),
    {
        self.count
    }

    /// Whether the map holds no entry.
    pub fn is_empty(&self) -> (b: bool)
        requires
            self.wf(),
        ensures
            b == (self@.len() == 0),
    {
        self.count == 0
    }

    /// The number of resizes that have been completed.
    pub fn generation(&self) -> (n: usize)
        requires
            self.wf(),
        ensures
            n == self.spec_generation(),
    {
        self.generation
    }

    /// The number of bins of the table of record.
    pub fn capacity(&self) -> (n: usize)
        requires
            self.wf(),
        ensures
            n == self.spec_capacity(),
            0 < n <= MAXIMUM_CAPACITY,
    {
        self.table.len()
    }

    /// The bin in which `hash` is looked for.
    fn bin_for(&self, hash: u64) -> (bin: &Bin<K, V>)
        requires
            self.tables_wf(),
        ensures
            *bin == self.home(hash),
            bin.wf(),
    {
        let n = self.table.len();
        proof {
            lemma_index_in_range(hash, n as u64);
        }
        let i = (hash & (n as u64 - 1)) as usize;
        match &self.table[i] {
            Bin::Moved => {
                let m = self.next.len();
                proof {
                    lemma_index_in_range(hash, m as u64);
                }
                let j = (hash & (m as u64 - 1)) as usize;
                &self.next[j]
            },
            bin => bin,
        }
    }

    /// The value stored under `key`.
    pub fn get(&self, key: &K, guard: &Guard<'_>) -> (r: Option<&V>)
        requires
            self.wf(),
        ensures
            r is Some <==> self@.contains_key(*key),
            r matches Some(v) ==> *v == self@[*key],
    {
        let hash = key.hash();
        match self.bin_for(hash).get(hash, key) {
            Some(node) => Some(&node.value),
            None => None,
        }
    }

    /// The stored key equal to `key`, and the value stored under it.
    pub fn get_key_value(&self, key: &K, guard: &Guard<'_>) -> (r: Option<(&K, &V)>)
        requires
            self.wf(),
        ensures
            r is Some <==> self@.contains_key(*key),
            r matches Some(kv) ==> *kv.0 == *key && *kv.1 == self@[*key],
    {
        let hash = key.hash();
        match self.bin_for(hash).get(hash, key) {
            Some(node) => Some((&node.key, &node.value)),
            None => None,
        }
    }

    /// Whether an entry is stored under `key`.
    pub fn contains_key(&self, key: &K, guard: &Guard<'_>) -> (b: bool)
        requires
            self.wf(),
        ensures
            b == self@.contains_key(*key),
    {
        let hash = key.hash();
        self.bin_for(hash).find(hash, key).is_some()
    }
}

impl<K: Key, V> HashMap<K, V> {
    /// Whether two hashes are looked for in the same bin.
    spec fn same_home(&self, h1: u64, h2: u64) -> bool {
        let n = self.table@.len();
        &&& index_of(h1, n) == index_of(h2, n)
        &&& self.table@[index_of(h1, n)] is Moved ==> index_of(h1, self.next@.len()) == index_of(
            h2,
            self.next@.len(),
        )
    }

    /// What follows when one bin, the home of `hash`, is replaced by a well
    /// formed bin with no key that the old bin did not hold or that has
    /// another hash: the tables stay well formed, and every other hash
    /// finds the bin it found before.
    proof fn lemma_home_replaced(pre: Self, post: Self, hash: u64)
        requires
            pre.tables_wf(),
            post.cursor == pre.cursor,
            post.generation == pre.generation,
            post.table@.len() == pre.table@.len(),
            post.next@.len() == pre.next@.len(),
            forall|i: int|
                0 <= i < pre.table@.len() && !(i == index_of(hash, pre.table@.len())
                    && !(pre.table@[i] is Moved)) ==> #[trigger] post.table@[i] == pre.table@[i],
            forall|j: int|
                0 <= j < pre.next@.len() && !(j == index_of(hash, pre.next@.len())
                    && pre.table@[index_of(hash, pre.table@.len())] is Moved)
                    ==> #[trigger] post.next@[j] == pre.next@[j],
            post.table@[index_of(hash, pre.table@.len())] is Moved
                <==> pre.table@[index_of(hash, pre.table@.len())] is Moved,
            post.home(hash).wf(),
            !(post.home(hash) is Moved),
            forall|k: K| #[trigger]
                post.home(hash)@.contains_key(k) ==> pre.home(hash)@.contains_key(k)
                    || k.spec_hash() == hash,
        ensures
            post.tables_wf(),
            forall|h2: u64|
                #[trigger] post.home(h2) == (if pre.same_home(hash, h2) {
                    post.home(hash)
                } else {
                    pre.home(h2)
                }),
            forall|h2: u64| pre.same_home(hash, h2) ==> #[trigger] pre.home(h2) == pre.home(hash),
    {
        let n = pre.table@.len();
        let m = pre.next@.len();
        let i = index_of(hash, n);
        lemma_index_in_range(hash, n as u64);
        if m > 0 {
            lemma_index_in_range(hash, m as u64);
        }
        let j = index_of(hash, m);
        assert(!(pre.table@[i] is Moved) ==> post.table@[i] == post.home(hash));
        assert forall|a: int| 0 <= a < n implies ((#[trigger] post.table@[a]) is Moved <==> a
            < post.cursor) by {
            if a == i && !(pre.table@[a] is Moved) {
            } else {
                assert(post.table@[a] == pre.table@[a]);
            }
        }
        assert forall|a: int| 0 <= a < n implies {
            &&& (#[trigger] post.table@[a]).wf()
            &&& forall|k: K|
                post.table@[a]@.contains_key(k) ==> index_of(k.spec_hash(), post.table@.len()) == a
        } by {
            if a == i && !(pre.table@[a] is Moved) {
                assert(pre.home(hash) == pre.table@[a]);
            } else {
                assert(post.table@[a] == pre.table@[a]);
            }
        }
        if m > 0 {
            assert forall|a: int| 0 <= a < m implies {
                &&& (#[trigger] post.next@[a]).wf()
                &&& forall|k: K|
                    post.next@[a]@.contains_key(k) ==> index_of(k.spec_hash(), post.next@.len())
                        == a
            } by {
                if a == j && pre.table@[i] is Moved {
                    assert(pre.home(hash) == pre.next@[a]);
                    assert(post.home(hash) == post.next@[a]);
                } else {
                    assert(post.next@[a] == pre.next@[a]);
                }
            }
            assert forall|a: int| 0 <= a < m implies !((#[trigger] post.next@[a]) is Moved) by {
                if a == j && pre.table@[i] is Moved {
                    assert(post.home(hash) == post.next@[a]);
                } else {
                    assert(post.next@[a] == pre.next@[a]);
                }
            }
        }
        assert forall|h2: u64|
            #[trigger] post.home(h2) == (if pre.same_home(hash, h2) {
                post.home(hash)
            } else {
                pre.home(h2)
            }) by {
            lemma_index_in_range(h2, n as u64);
            if m > 0 {
                lemma_index_in_range(h2, m as u64);
            }
            let i2 = index_of(h2, n);
            if i2 != i {
                assert(post.table@[i2] == pre.table@[i2]);
                if pre.table@[i2] is Moved {
                    // a forwarded bin other than the one of `hash`
                    assert(i2 < pre.cursor);
                    assert(m > 0);
                    let j2 = index_of(h2, m);
                    if pre.table@[i] is Moved && j2 == j {
                        lemma_index_double(hash, n as u64);
                        lemma_index_double(h2, n as u64);
                    }
                    assert(post.next@[j2] == pre.next@[j2]);
                }
            } else {
                if pre.table@[i] is Moved {
                    assert(post.table@[i] == pre.table@[i]);
                    let j2 = index_of(h2, m);
                    if j2 != j {
                        assert(post.next@[j2] == pre.next@[j2]);
                    }
                }
            }
        }
    }

    /// Stores `value` under `key` in the bin where `key` belongs.
    fn put_entry(&mut self, hash: u64, key: K, value: V) -> (prev: Option<V>)
        requires
            old(self).inv(),
            hash == key.spec_hash(),
            old(self)@.contains_key(key) || old(self)@.len() < usize::MAX,
        ensures
            final(self).inv(),
            final(self)@ == old(self)@.insert(key, value),
            prev == old(self)@.get(key),
            final(self).spec_capacity() == old(self).spec_capacity(),
            final(self).spec_generation() == old(self).spec_generation(),
            final(self).resizing() == old(self).resizing(),
    {
        let ghost pre = *self;
        let n = self.table.len();
        proof {
            lemma_index_in_range(hash, n as u64);
        }
        let i = (hash & (n as u64 - 1)) as usize;
        let forwarded = match &self.table[i] {
            Bin::Moved => true,
            _ => false,
        };
        let prev = if forwarded {
            let m = self.next.len();
            proof {
                lemma_index_in_range(hash, m as u64);
            }
            let j = (hash & (m as u64 - 1)) as usize;
            self.next[j].put(hash, key, value)
        } else {
            self.table[i].put(hash, key, value)
        };
        proof {
            assert(self.home(hash)@ == pre.home(hash)@.insert(key, value));
            Self::lemma_home_replaced(pre, *self, hash);
            assert forall|k: K| #[trigger]
                self@.contains_key(k) == pre@.insert(key, value).contains_key(k) by {
                let h2 = k.spec_hash();
                assert(self.home(h2) == (if pre.same_home(hash, h2) {
                    self.home(hash)
                } else {
                    pre.home(h2)
                }));
            }
            assert forall|k: K| #[trigger] self@.contains_key(k) implies self@[k] == pre@.insert(
                key,
                value,
            )[k] by {
                let h2 = k.spec_hash();
                assert(self.home(h2) == (if pre.same_home(hash, h2) {
                    self.home(hash)
                } else {
                    pre.home(h2)
                }));
            }
            assert(self@ =~= pre@.insert(key, value));
            assert(self@.dom() =~= pre@.dom().insert(key));
            assert(self.tables_wf());
        }
        if prev.is_none() {
            self.count = self.count + 1;
        }
        proof {
            // the count is no part of the tables, nor of the view
            assert(self.tables_wf());
            assert(self@ == pre@.insert(key, value));
        }
        prev
    }

    /// Stores `value` under a key that is present, in the node that holds
    /// the key.
    fn replace_value(&mut self, hash: u64, key: &K, value: V) -> (prev: V)
        requires
            old(self).inv(),
            hash == key.spec_hash(),
            old(self)@.contains_key(*key),
        ensures
            final(self).inv(),
            final(self)@ == old(self)@.insert(*key, value),
            prev == old(self)@[*key],
            final(self).spec_capacity() == old(self).spec_capacity(),
            final(self).spec_generation() == old(self).spec_generation(),
            final(self).resizing() == old(self).resizing(),
    {
        let ghost pre = *self;
        let n = self.table.len();
        proof {
            lemma_index_in_range(hash, n as u64);
        }
        let i = (hash & (n as u64 - 1)) as usize;
        let forwarded = match &self.table[i] {
            Bin::Moved => true,
            _ => false,
        };
        let prev = if forwarded {
            let m = self.next.len();
            proof {
                lemma_index_in_range(hash, m as u64);
            }
            let j = (hash & (m as u64 - 1)) as usize;
            match self.next[j].find(hash, key) {
                Some(at) => {
                    proof {
                        lemma_contents_at(self.next@[j as int].nodes(), at as int);
                    }
                    self.next[j].set_value(at, value)
                },
                None => vstd::pervasive::unreached(),
            }
        } else {
            match self.table[i].find(hash, key) {
                Some(at) => {
                    proof {
                        lemma_contents_at(self.table@[i as int].nodes(), at as int);
                    }
                    self.table[i].set_value(at, value)
                },
                None => vstd::pervasive::unreached(),
            }
        };
        proof {
            assert(self.home(hash)@ == pre.home(hash)@.insert(*key, value));
            Self::lemma_home_replaced(pre, *self, hash);
            assert forall|k: K| #[trigger]
                self@.contains_key(k) == pre@.insert(*key, value).contains_key(k) by {
                let h2 = k.spec_hash();
                assert(self.home(h2) == (if pre.same_home(hash, h2) {
                    self.home(hash)
                } else {
                    pre.home(h2)
                }));
            }
            assert forall|k: K| #[trigger] self@.contains_key(k) implies self@[k] == pre@.insert(
                *key,
                value,
            )[k] by {
                let h2 = k.spec_hash();
                assert(self.home(h2) == (if pre.same_home(hash, h2) {
                    self.home(hash)
                } else {
                    pre.home(h2)
                }));
            }
            assert(self@ =~= pre@.insert(*key, value));
            assert(self@.dom() =~= pre@.dom());
        }
        prev
    }

    /// Takes the node that holds `key` out of the bin where `key` belongs.
    fn take_entry(&mut self, hash: u64, key: &K) -> (r: Option<Node<K, V>>)
        requires
            old(self).inv(),
            hash == key.spec_hash(),
        ensures
            final(self).inv(),
            final(self)@ == old(self)@.remove(*key),
            r is Some <==> old(self)@.contains_key(*key),
            r matches Some(n) ==> n.key == *key && n.value == old(self)@[*key],
            final(self).spec_capacity() == old(self).spec_capacity(),
            final(self).spec_generation() == old(self).spec_generation(),
            final(self).resizing() == old(self).resizing(),
    {
        let ghost pre = *self;
        let n = self.table.len();
        proof {
            lemma_index_in_range(hash, n as u64);
        }
        let i = (hash & (n as u64 - 1)) as usize;
        let forwarded = match &self.table[i] {
            Bin::Moved => true,
            _ => false,
        };
        let r = if forwarded {
            let m = self.next.len();
            proof {
                lemma_index_in_range(hash, m as u64);
            }
            let j = (hash & (m as u64 - 1)) as usize;
            self.next[j].take(hash, key)
        } else {
            self.table[i].take(hash, key)
        };
        proof {
            assert(self.home(hash)@ == pre.home(hash)@.remove(*key));
            Self::lemma_home_replaced(pre, *self, hash);
            assert forall|k: K| #[trigger]
                self@.contains_key(k) == pre@.remove(*key).contains_key(k) by {
                let h2 = k.spec_hash();
                assert(self.home(h2) == (if pre.same_home(hash, h2) {
                    self.home(hash)
                } else {
                    pre.home(h2)
                }));
            }
            assert forall|k: K| #[trigger] self@.contains_key(k) implies self@[k] == pre@.remove(
                *key,
            )[k] by {
                let h2 = k.spec_hash();
                assert(self.home(h2) == (if pre.same_home(hash, h2) {
                    self.home(hash)
                } else {
                    pre.home(h2)
                }));
            }
            assert(self@ =~= pre@.remove(*key));
            assert(self@.dom() =~= pre@.dom().remove(*key));
            assert(self.tables_wf());
        }
        if r.is_some() {
            self.count = self.count - 1;
        }
        proof {
            // the count is no part of the tables, nor of the view
            assert(self.tables_wf());
            assert(self@ == pre@.remove(*key));
        }
        r
    }
}

impl<K: Key, V> HashMap<K, V> {
    /// The number of bins that are still to be carried over to the next
    /// table; zero when no resize is under way.
    spec fn pending(&self) -> nat {
        if self.next@.len() > 0 {
            (self.table@.len() - self.cursor) as nat
        } else {
            0
        }
    }

    /// Starts a resize: makes the next table, twice the size, with every
    /// bin empty.
    fn begin_resize(&mut self)
        requires
            old(self).inv(),
            !old(self).resizing(),
            old(self).spec_capacity() < MAXIMUM_CAPACITY,
        ensures
            final(self).inv(),
            final(self)@ == old(self)@,
            final(self).resizing(),
            final(self).spec_capacity() == old(self).spec_capacity(),
            final(self).spec_generation() == old(self).spec_generation(),
            forall|h: u64| #[trigger] final(self).home(h) == old(self).home(h),
    {
        let ghost pre = *self;
        let n = self.table.len();
        proof {
            lemma_pow2_room(n as u64);
        }
        self.next = empty_bins(2 * n);
        proof {
            assert forall|i: int| 0 <= i < self.next@.len() implies !((#[trigger] self.next@[i])
                is Moved) by {
                assert(self.next@[i] is Empty);
            }
            assert forall|h: u64| #[trigger] self.home(h) == pre.home(h) by {
                lemma_index_in_range(h, n as u64);
            }
            assert(self@ =~= pre@);
        }
    }

}

impl<K: Key + Send + Sync, V: Send + Sync> HashMap<K, V> {
    /// Carries the bin at the cursor over to the next table: parts its
    /// entries by the bit that the larger table adds to the index, stores
    /// the two halves there, and leaves the forwarding marker behind. With
    /// the last bin the next table becomes the table of record, and the old
    /// one is handed to reclamation.
    fn transfer_bin(&mut self, guard: &Guard<'_>)
        requires
            old(self).inv(),
            old(self).resizing(),
        ensures
            final(self).inv(),
            final(self)@ == old(self)@,
            final(self).pending() == old(self).pending() - 1,
            final(self).resizing() <==> old(self).pending() > 1,
            final(self).spec_generation() == old(self).spec_generation() + if old(self).pending()
                > 1 {
                0int
            } else {
                1int
            },
            final(self).spec_capacity() == if old(self).pending() > 1 {
                old(self).spec_capacity()
            } else {
                2 * old(self).spec_capacity()
            },
    {
        let ghost pre = *self;
        let n = self.table.len();
        let i = self.cursor;
        let mut bin = Bin::Moved;
        core::mem::swap(&mut self.table[i], &mut bin);
        let ghost whole = bin;
        proof {
            assert(whole == pre.table@[i as int]);
            assert(whole.wf());
        }
        let (lo, hi) = bin.split(n as u64);
        self.next[i] = lo;
        self.next[i + n] = hi;
        self.cursor = i + 1;
        let ghost mid = *self;
        proof {
            assert forall|k: K| #[trigger]
                mid.home(k.spec_hash())@.contains_key(k) == pre.home(k.spec_hash())@.contains_key(
                    k,
                ) && (mid.home(k.spec_hash())@.contains_key(k) ==> mid.home(k.spec_hash())@[k]
                    == pre.home(k.spec_hash())@[k]) by {
                let h = k.spec_hash();
                lemma_index_in_range(h, n as u64);
                lemma_index_in_range(h, (2 * n) as u64);
                lemma_index_double(h, n as u64);
                let i2 = index_of(h, n as nat);
                if i2 == i {
                    assert(pre.home(h) == whole);
                    assert(mid.table@[i2] is Moved);
                    if h & (n as u64) == 0 {
                        assert(mid.home(h) == lo);
                        assert(low_keys::<K>(n as u64).contains(k));
                    } else {
                        assert(mid.home(h) == hi);
                        assert(high_keys::<K>(n as u64).contains(k));
                    }
                } else {
                    assert(mid.table@[i2] == pre.table@[i2]);
                    if pre.table@[i2] is Moved {
                        let j2 = index_of(h, (2 * n) as nat);
                        assert(mid.next@[j2] == pre.next@[j2]);
                    }
                }
            }
            assert(mid@ =~= pre@);
            assert forall|a: int| 0 <= a < n implies {
                &&& (#[trigger] mid.table@[a]).wf()
                &&& forall|k: K|
                    mid.table@[a]@.contains_key(k) ==> index_of(k.spec_hash(), mid.table@.len())
                        == a
            } by {
                if a == i {
                    assert(mid.table@[a].nodes() =~= Seq::empty());
                } else {
                    assert(mid.table@[a] == pre.table@[a]);
                }
            }
            assert forall|a: int| 0 <= a < 2 * n implies {
                &&& (#[trigger] mid.next@[a]).wf()
                &&& !(mid.next@[a] is Moved)
                &&& forall|k: K|
                    mid.next@[a]@.contains_key(k) ==> index_of(k.spec_hash(), mid.next@.len()) == a
            } by {
                if a == i || a == i + n {
                    assert forall|k: K| mid.next@[a]@.contains_key(k) implies index_of(
                        k.spec_hash(),
                        mid.next@.len(),
                    ) == a by {
                        assert(whole@.contains_key(k));
                        lemma_index_double(k.spec_hash(), n as u64);
                        if a == i {
                            assert(low_keys::<K>(n as u64).contains(k));
                        } else {
                            assert(high_keys::<K>(n as u64).contains(k));
                        }
                    }
                } else {
                    assert(mid.next@[a] == pre.next@[a]);
                }
            }
            assert forall|a: int| 0 <= a < n implies ((#[trigger] mid.table@[a]) is Moved <==> a
                < mid.cursor) by {
                if a != i {
                    assert(mid.table@[a] == pre.table@[a]);
                }
            }
        }
        if self.cursor == n {
            let mut retired: Vec<Bin<K, V>> = Vec::new();
            core::mem::swap(&mut self.table, &mut self.next);
            core::mem::swap(&mut self.next, &mut retired);
            self.cursor = 0;
            self.generation = self.generation + 1;
            proof {
                lemma_pow2_double(n as u64);
                lemma_pow2_unfold(self.generation as nat);
                assert(2 * (DEFAULT_CAPACITY * pow2((self.generation - 1) as nat))
                    == DEFAULT_CAPACITY * (2 * pow2((self.generation - 1) as nat)))
                    by (nonlinear_arith);
                assert forall|k: K| #[trigger]
                    self.home(k.spec_hash()) == mid.home(k.spec_hash()) by {
                    let h = k.spec_hash();
                    lemma_index_in_range(h, n as u64);
                    lemma_index_in_range(h, (2 * n) as u64);
                    assert(mid.table@[index_of(h, n as nat)] is Moved);
                }
                assert(self@ =~= mid@);
                assert forall|a: int| 0 <= a < self.table@.len() implies ((
                #[trigger] self.table@[a]) is Moved <==> a < self.cursor) by {
                    assert(self.table@[a] == mid.next@[a]);
                }
            }
            guard.retire(retired);
        }
    }
}

impl<K: Key, V> HashMap<K, V> {
    /// The number of nodes in the bin where `key` belongs.
    pub closed spec fn spec_bin_len(&self, key: K) -> nat {
        self.home(key.spec_hash()).nodes().len()
    }

    /// Whether the bin where `key` belongs is a sorted bin.
    pub closed spec fn spec_bin_sorted(&self, key: K) -> bool {
        self.home(key.spec_hash()) is Sorted
    }

    /// The number of nodes in the bin where `key` belongs.
    pub fn bin_len(&self, key: &K) -> (n: usize)
        requires
            self.wf(),
        ensures
            n == self.spec_bin_len(*key),
    {
        self.bin_for(key.hash()).len()
    }

    /// Whether the bin where `key` belongs is a sorted bin.
    pub fn bin_sorted(&self, key: &K) -> (b: bool)
        requires
            self.wf(),
        ensures
            b == self.spec_bin_sorted(*key),
    {
        match self.bin_for(key.hash()) {
            Bin::Sorted(_) => true,
            _ => false,
        }
    }

    /// Whether a resize is under way.
    pub fn is_resizing(&self) -> (b: bool)
        requires
            self.wf(),
        ensures
            b == self.resizing(),
    {
        self.next.len() > 0
    }

}

impl<K: Key + Send + Sync, V: Send + Sync> HashMap<K, V> {
    /// Carries the pending bins over to the next table, `TRANSFER_STRIDE` at most.
    fn help_transfer(&mut self, guard: &Guard<'_>)
        requires
            old(self).inv(),
        ensures
            final(self).inv(),
            final(self)@ == old(self)@,
            final(self).grown_from(old(self)),
            final(self).pending() == if old(self).pending() > TRANSFER_STRIDE {
                old(self).pending() - TRANSFER_STRIDE
            } else {
                0
            },
            final(self).resizing() <==> old(self).pending() > TRANSFER_STRIDE,
            final(self).spec_capacity() == if old(self).resizing() && old(self).pending()
                <= TRANSFER_STRIDE {
                2 * old(self).spec_capacity()
            } else {
                old(self).spec_capacity()
            },
            final(self).spec_generation() == if old(self).resizing() && old(self).pending()
                <= TRANSFER_STRIDE {
                old(self).spec_generation() + 1
            } else {
                old(self).spec_generation()
            },
    {
        let ghost before = self@;
        let ghost start = *self;
        let mut moved: usize = 0;
        while moved < TRANSFER_STRIDE && self.next.len() > 0
            invariant
                self.inv(),
                start.inv(),
                self.grown_from(&start),
                self@ == before,
                moved <= TRANSFER_STRIDE,
                self.resizing() ==> {
                    &&& start.resizing()
                    &&& self.pending() == start.pending() - moved
                    &&& self.spec_capacity() == start.spec_capacity()
                    &&& self.spec_generation() == start.spec_generation()
                },
                !self.resizing() ==> {
                    &&& start.pending() <= moved
                    &&& self.spec_capacity() == if start.resizing() {
                        2 * start.spec_capacity()
                    } else {
                        start.spec_capacity()
                    }
                    &&& self.spec_generation() == start.spec_generation() + if start.resizing() {
                        1int
                    } else {
                        0int
                    }
                },
            decreases TRANSFER_STRIDE - moved,
        {
            self.transfer_bin(guard);
            moved = moved + 1;
        }
    }

    /// Carries every bin that is left over to the next table.
    fn finish_transfer(&mut self, guard: &Guard<'_>)
        requires
            old(self).inv(),
        ensures
            final(self).inv(),
            final(self)@ == old(self)@,
            final(self).grown_from(old(self)),
            !final(self).resizing(),
            final(self).spec_capacity() == if old(self).resizing() {
                2 * old(self).spec_capacity()
            } else {
                old(self).spec_capacity()
            },
    {
        let ghost before = self@;
        let ghost cap = self.spec_capacity();
        let ghost goal = if self.resizing() {
            2 * cap
        } else {
            cap
        };
        let ghost start = *self;
        while self.next.len() > 0
            invariant
                self.inv(),
                self.grown_from(&start),
                self@ == before,
                self.spec_capacity() == if self.resizing() {
                    cap
                } else {
                    goal
                },
                self.resizing() ==> goal == 2 * cap,
            decreases self.pending(),
        {
            self.transfer_bin(guard);
        }
    }

    /// Starts a resize where the table has reached its threshold.
    fn settle(&mut self)
        requires
            old(self).inv(),
        ensures
            final(self).wf(),
            final(self)@ == old(self)@,
            final(self).spec_capacity() == old(self).spec_capacity(),
            final(self).spec_generation() == old(self).spec_generation(),
            old(self).resizing() ==> final(self).resizing(),
            forall|h: u64| #[trigger] final(self).home(h) == old(self).home(h),
    {
        let n = self.table.len();
        if self.next.len() == 0 && n < MAXIMUM_CAPACITY && self.count >= n - n / 4 {
            let ghost pre = *self;
            self.begin_resize();
            proof {
                assert forall|h: u64| #[trigger] self.home(h) == pre.home(h) by {
                    lemma_index_in_range(h, n as u64);
                }
            }
        }
    }

    /// Relieves the bin of `hash` if it is crowded: in a table of
    /// `MIN_PROMOTE_CAPACITY` bins or more a chain is rebuilt as a sorted
    /// bin, a smaller table is resized.
    fn relieve(&mut self, hash: u64)
        requires
            old(self).inv(),
        ensures
            final(self).inv(),
            final(self)@ == old(self)@,
            final(self).spec_capacity() == old(self).spec_capacity(),
            final(self).spec_generation() == old(self).spec_generation(),
            old(self).resizing() ==> final(self).resizing(),
            final(self).home(hash).nodes().len() == old(self).home(hash).nodes().len(),
            final(self).home(hash).nodes().len() >= PROMOTE_THRESHOLD ==> {
                ||| final(self).home(hash) is Sorted
                ||| final(self).spec_capacity() < MIN_PROMOTE_CAPACITY && final(self).resizing()
            },
    {
        let ghost pre = *self;
        let n = self.table.len();
        proof {
            lemma_index_in_range(hash, n as u64);
        }
        let i = (hash & (n as u64 - 1)) as usize;
        let forwarded = match &self.table[i] {
            Bin::Moved => true,
            _ => false,
        };
        if forwarded {
            let m = self.next.len();
            proof {
                lemma_index_in_range(hash, m as u64);
            }
            let j = (hash & (m as u64 - 1)) as usize;
            let long_chain = match &self.next[j] {
                Bin::Chain(v) => v.len() >= PROMOTE_THRESHOLD,
                _ => false,
            };
            if long_chain && n >= MIN_PROMOTE_CAPACITY {
                self.next[j].promote();
                proof {
                    Self::lemma_same_entries(pre, *self, hash);
                }
            }
        } else {
            let long_chain = match &self.table[i] {
                Bin::Chain(v) => v.len() >= PROMOTE_THRESHOLD,
                _ => false,
            };
            if long_chain {
                if n >= MIN_PROMOTE_CAPACITY {
                    self.table[i].promote();
                    proof {
                        Self::lemma_same_entries(pre, *self, hash);
                    }
                } else if self.next.len() == 0 {
                    self.begin_resize();
                    proof {
                        assert(self.home(hash) == pre.home(hash));
                    }
                }
            }
        }
    }

    /// Replacing the home of `hash` by a bin with the same entries leaves
    /// the map what it was.
    proof fn lemma_same_entries(pre: Self, post: Self, hash: u64)
        requires
            pre.inv(),
            post.cursor == pre.cursor,
            post.count == pre.count,
            post.generation == pre.generation,
            post.table@.len() == pre.table@.len(),
            post.next@.len() == pre.next@.len(),
            forall|i: int|
                0 <= i < pre.table@.len() && !(i == index_of(hash, pre.table@.len())
                    && !(pre.table@[i] is Moved)) ==> #[trigger] post.table@[i] == pre.table@[i],
            forall|j: int|
                0 <= j < pre.next@.len() && !(j == index_of(hash, pre.next@.len())
                    && pre.table@[index_of(hash, pre.table@.len())] is Moved)
                    ==> #[trigger] post.next@[j] == pre.next@[j],
            post.table@[index_of(hash, pre.table@.len())] is Moved
                <==> pre.table@[index_of(hash, pre.table@.len())] is Moved,
            post.home(hash).wf(),
            !(post.home(hash) is Moved),
            post.home(hash)@ == pre.home(hash)@,
        ensures
            post.inv(),
            post@ == pre@,
    {
        Self::lemma_home_replaced(pre, post, hash);
        assert forall|k: K| #[trigger] post.home(k.spec_hash())@ == pre.home(k.spec_hash())@ by {
            let h2 = k.spec_hash();
            assert(post.home(h2) == (if pre.same_home(hash, h2) {
                post.home(hash)
            } else {
                pre.home(h2)
            }));
        }
        assert(post@ =~= pre@);
    }

    /// Stores `value` under `key` and gives the value that was stored under
    /// it before.
    ///
    /// A new key may crowd its bin: with `PROMOTE_THRESHOLD` nodes the bin
    /// is rebuilt as a sorted bin, or in a table of fewer than
    /// `MIN_PROMOTE_CAPACITY` bins the table is resized.
    pub fn insert(&mut self, key: K, value: V, guard: &Guard<'_>) -> (prev: Option<V>)
        requires
            old(self).wf(),
            old(self)@.contains_key(key) || old(self)@.len() < usize::MAX,
        ensures
            final(self).wf(),
            final(self)@ == old(self)@.insert(key, value),
            final(self).grown_from(old(self)),
            prev == old(self)@.get(key),
            prev is None && final(self).spec_bin_len(key) >= PROMOTE_THRESHOLD ==> {
                ||| final(self).spec_bin_sorted(key)
                ||| final(self).spec_capacity() < MIN_PROMOTE_CAPACITY && final(self).resizing()
            },
    {
        self.help_transfer(guard);
        let hash = key.hash();
        let prev = self.put_entry(hash, key, value);
        if prev.is_none() {
            self.relieve(hash);
        }
        self.settle();
        prev
    }

    /// Stores every entry of `entries`, first to last. Of two entries with
    /// the same key the later one stays.
    pub fn extend(&mut self, entries: Vec<(K, V)>, guard: &Guard<'_>)
        requires
            old(self).wf(),
            old(self)@.len() + entries@.len() <= usize::MAX,
        ensures
            final(self).wf(),
            final(self)@ == spec_insert_all(old(self)@, entries@),
            final(self).grown_from(old(self)),
    {
        let ghost before = self@;
        let ghost all = entries@;
        proof {
            assert(all.take(0) =~= Seq::<(K, V)>::empty());
        }
        let ghost start = *self;
        for entry in it: entries
            invariant
                self.wf(),
                self.grown_from(&start),
                it.seq() == all,
                before.len() + all.len() <= usize::MAX,
                self@.len() <= before.len() + it.index(),
                self@ == spec_insert_all(before, all.take(it.index() as int)),
        {
            proof {
                let i = it.index() as int;
                assert(all.take(i + 1).drop_last() =~= all.take(i));
                assert(all.take(i + 1).last() == all[i]);
            }
            self.insert(entry.0, entry.1, guard);
        }
        proof {
            assert(all.take(all.len() as int) =~= all);
        }
    }

    /// Removes the entry stored under `key` and gives its value. What is
    /// left of the node is handed to reclamation.
    pub fn remove(&mut self, key: &K, guard: &Guard<'_>) -> (r: Option<V>)
        requires
            old(self).wf(),
        ensures
            final(self).wf(),
            final(self)@ == old(self)@.remove(*key),
            final(self).grown_from(old(self)),
            r == old(self)@.get(*key),
    {
        self.help_transfer(guard);
        let hash = key.hash();
        let r = match self.take_entry(hash, key) {
            Some(node) => {
                let Node { hash: _, key: stored, value } = node;
                guard.retire(stored);
                Some(value)
            },
            None => None,
        };
        self.settle();
        r
    }

    /// Where `key` is present, shows its entry to `f` and stores what `f`
    /// gives under the key, or removes the entry where `f` gives nothing.
    /// Gives the value that is stored under `key` afterwards. What was
    /// there before is handed to reclamation.
    pub fn compute_if_present<F: FnOnce(&K, &V) -> Option<V>>(
        &mut self,
        key: &K,
        f: F,
        guard: &Guard<'_>,
    ) -> (r: Option<&V>)
        requires
            old(self).wf(),
            old(self)@.contains_key(*key) ==> call_requires(f, (key, &old(self)@[*key])),
        ensures
            final(self).wf(),
            final(self).grown_from(old(self)),
            !old(self)@.contains_key(*key) ==> final(self)@ == old(self)@,
            old(self)@.contains_key(*key) ==> {
                &&& call_ensures(f, (key, &old(self)@[*key]), final(self)@.get(*key))
                &&& final(self)@ == match final(self)@.get(*key) {
                    Some(v) => old(self)@.insert(*key, v),
                    None => old(self)@.remove(*key),
                }
            },
            r is Some <==> final(self)@.contains_key(*key),
            r matches Some(v) ==> *v == final(self)@[*key],
    {
        self.help_transfer(guard);
        let hash = key.hash();
        let computed = match self.bin_for(hash).get(hash, key) {
            Some(node) => Some(f(&node.key, &node.value)),
            None => None,
        };
        match computed {
            Some(Some(value)) => {
                let prev = self.replace_value(hash, key, value);
                guard.retire(prev);
            },
            Some(None) => {
                let node = self.take_entry(hash, key);
                guard.retire(node);
            },
            None => {},
        }
        self.settle();
        self.get(key, guard)
    }

    /// Removes the entry stored under `key` and gives the stored key and
    /// its value.
    pub fn take(&mut self, key: &K, guard: &Guard<'_>) -> (r: Option<(K, V)>)
        requires
            old(self).wf(),
        ensures
            final(self).wf(),
            final(self)@ == old(self)@.remove(*key),
            final(self).grown_from(old(self)),
            r is Some <==> old(self)@.contains_key(*key),
            r matches Some(kv) ==> kv.0 == *key && kv.1 == old(self)@[*key],
    {
        self.help_transfer(guard);
        let hash = key.hash();
        let r = match self.take_entry(hash, key) {
            Some(node) => Some((node.key, node.value)),
            None => None,
        };
        self.settle();
        r
    }
}

impl<K: Key, V> HashMap<K, V> {
    /// The place of a key's bin in the order in which the bins are walked:
    /// bin by bin of the table of record, and behind a forwarding marker
    /// the lower and then the upper bin of the next table.
    spec fn rank(&self, k: K) -> int {
        let h = k.spec_hash();
        let i = index_of(h, self.table@.len());
        if self.table@[i] is Moved && index_of(h, self.next@.len()) != i {
            2 * i + 1
        } else {
            2 * i
        }
    }

    /// The bin that is walked at place `p`.
    spec fn bin_at(&self, p: int) -> Bin<K, V> {
        let i = p / 2;
        if self.table@[i] is Moved {
            if p % 2 == 0 {
                self.next@[i]
            } else {
                self.next@[i + self.table@.len()]
            }
        } else {
            if p % 2 == 0 {
                self.table@[i]
            } else {
                Bin::Empty
            }
        }
    }

    /// The bin walked at place `p` holds the keys of that rank, and no
    /// others.
    proof fn lemma_bin_at(&self, p: int)
        requires
            self.tables_wf(),
            0 <= p < 2 * self.table@.len(),
        ensures
            self.bin_at(p).wf(),
            forall|k: K| #[trigger]
                self.bin_at(p)@.contains_key(k) <==> self@.contains_key(k) && self.rank(k) == p,
    {
        let n = self.table@.len();
        let i = p / 2;
        let b = self.bin_at(p);
        if !(self.table@[i] is Moved) && p % 2 == 1 {
            assert(b.nodes() =~= Seq::empty());
        }
        assert forall|k: K| #[trigger]
            b@.contains_key(k) <==> self@.contains_key(k) && self.rank(k) == p by {
            let h = k.spec_hash();
            lemma_index_in_range(h, n as u64);
            if self.next@.len() > 0 {
                lemma_index_in_range(h, (2 * n) as u64);
                lemma_index_double(h, n as u64);
            }
            let idx = index_of(h, n);
            if self.table@[idx] is Moved {
                assert(self.next@.len() > 0);
            }
        }
    }

    /// Walking one more bin adds the keys of its rank.
    proof fn lemma_keys_step(&self, ks: Seq<K>, p: int)
        requires
            self.tables_wf(),
            0 <= p < 2 * self.table@.len(),
            ks.no_duplicates(),
            forall|k: K| #[trigger] ks.contains(k) <==> self@.contains_key(k) && self.rank(k) < p,
        ensures
            (ks + key_seq(self.bin_at(p).nodes())).no_duplicates(),
            forall|k: K| #[trigger]
                (ks + key_seq(self.bin_at(p).nodes())).contains(k) <==> self@.contains_key(k)
                    && self.rank(k) < p + 1,
    {
        let b = self.bin_at(p);
        let bk = key_seq(b.nodes());
        self.lemma_bin_at(p);
        lemma_key_seq(b.nodes());
        assert forall|i: int, j: int| 0 <= i < ks.len() && 0 <= j < bk.len() implies ks[i]
            != bk[j] by {
            assert(ks.contains(ks[i]));
            assert(bk.contains(bk[j]));
            assert(b@.contains_key(bk[j]));
        }
        vstd::seq_lib::lemma_no_dup_in_concat(ks, bk);
        assert forall|k: K| #[trigger]
            (ks + bk).contains(k) <==> self@.contains_key(k) && self.rank(k) < p + 1 by {
            vstd::seq_lib::lemma_seq_concat_contains_all_elements(ks, bk, k);
            assert(bk.contains(k) <==> b@.contains_key(k));
        }
    }

    /// A borrow of every key of the map, each once, bin by bin.
    pub fn keys<'g>(&'g self, guard: &Guard<'_>) -> (r: Vec<&'g K>)
        requires
            self.wf(),
        ensures
            borrowed(r@).no_duplicates(),
            borrowed(r@).to_set() == self@.dom(),
            r@.len() == self@.len(),
    {
        let n = self.table.len();
        let mut out: Vec<&'g K> = Vec::new();
        let mut i: usize = 0;
        while i < n
            invariant
                self.tables_wf(),
                n == self.table@.len(),
                i <= n,
                borrowed(out@).no_duplicates(),
                forall|k: K| #[trigger]
                    borrowed(out@).contains(k) <==> self@.contains_key(k) && self.rank(k) < 2 * i,
            decreases n - i,
        {
            let ghost ks = borrowed(out@);
            proof {
                self.lemma_keys_step(ks, 2 * i);
                self.lemma_keys_step(ks + key_seq(self.bin_at(2 * i).nodes()), 2 * i + 1);
            }
            match &self.table[i] {
                Bin::Moved => {
                    self.next[i].collect_keys(&mut out);
                    self.next[i + n].collect_keys(&mut out);
                },
                bin => {
                    bin.collect_keys(&mut out);
                    proof {
                        assert(self.bin_at(2 * i + 1).nodes() =~= Seq::empty());
                        assert(borrowed(out@) =~= ks + key_seq(self.bin_at(2 * i).nodes())
                            + key_seq(self.bin_at(2 * i + 1).nodes()));
                    }
                },
            }
            i = i + 1;
        }
        proof {
            let ks = borrowed(out@);
            assert forall|k: K| #[trigger] ks.contains(k) <==> self@.contains_key(k) by {
                lemma_index_in_range(k.spec_hash(), n as u64);
            }
            assert(ks.to_set() =~= self@.dom());
            ks.unique_seq_to_set();
            assert(ks.len() == out@.len());
        }
        out
    }
}

impl<K: Key, V> HashMap<K, V> {
    /// A borrow of every entry of the map, each once, bin by bin.
    pub fn iter<'g>(&'g self, guard: &Guard<'_>) -> (r: Vec<(&'g K, &'g V)>)
        requires
            self.wf(),
        ensures
            r@.len() == self@.len(),
            forall|i: int| 0 <= i < r@.len() ==> self@.contains_pair(*(#[trigger] r@[i]).0, *r@[i].1),
            forall|i: int, j: int| 0 <= i < j < r@.len() ==> *r@[i].0 != *r@[j].0,
            forall|k: K| self@.contains_key(k) ==> exists|i: int| 0 <= i < r@.len() && *(#[trigger] r@[i]).0 == k,
    {
        let ks = self.keys(guard);
        let mut out: Vec<(&'g K, &'g V)> = Vec::new();
        let mut i: usize = 0;
        while i < ks.len()
            invariant
                self.wf(),
                i <= ks.len(),
                out@.len() == i,
                borrowed(ks@).to_set() == self@.dom(),
                forall|a: int| 0 <= a < i ==> *(#[trigger] out@[a]).0 == borrowed(ks@)[a],
                forall|a: int| 0 <= a < i ==> self@.contains_pair(*(#[trigger] out@[a]).0, *out@[a].1),
            decreases ks.len() - i,
        {
            let key: &'g K = ks[i];
            proof {
                assert(borrowed(ks@).contains(borrowed(ks@)[i as int]));
                assert(self@.dom().contains(*key));
            }
            match self.get(key, guard) {
                Some(value) => {
                    out.push((key, value));
                },
                None => {},
            }
            i = i + 1;
        }
        proof {
            assert forall|a: int, b: int| 0 <= a < b < out@.len() implies *out@[a].0
                != *out@[b].0 by {
                assert(borrowed(ks@)[a] != borrowed(ks@)[b]);
            }
            assert forall|k: K| self@.contains_key(k) implies exists|a: int|
                0 <= a < out@.len() && *(#[trigger] out@[a]).0 == k by {
                assert(borrowed(ks@).to_set().contains(k));
                let a = choose|a: int| 0 <= a < ks@.len() && borrowed(ks@)[a] == k;
                assert(*out@[a].0 == k);
            }
        }
        out
    }
}

impl<K: Key, V> HashMap<K, V> {
    /// Whether no key of this map is a key of `other`. The keys of this map
    /// are walked under `our_guard`, and each is looked up in `other` under
    /// `their_guard`.
    pub fn guarded_disjoint<W>(
        &self,
        other: &HashMap<K, W>,
        our_guard: &Guard<'_>,
        their_guard: &Guard<'_>,
    ) -> (b: bool)
        requires
            self.wf(),
            other.wf(),
        ensures
            b == self@.dom().disjoint(other@.dom()),
    {
        let ks = self.keys(our_guard);
        let mut i: usize = 0;
        while i < ks.len()
            invariant
                other.wf(),
                i <= ks.len(),
                borrowed(ks@).to_set() == self@.dom(),
                forall|j: int| 0 <= j < i ==> !other@.contains_key(#[trigger] borrowed(ks@)[j]),
            decreases ks.len() - i,
        {
            if other.contains_key(ks[i], their_guard) {
                proof {
                    let k = borrowed(ks@)[i as int];
                    assert(borrowed(ks@).contains(k));
                    assert(self@.dom().contains(k));
                }
                return false;
            }
            i = i + 1;
        }
        proof {
            assert forall|k: K| self@.dom().contains(k) implies !other@.dom().contains(k) by {
                assert(borrowed(ks@).to_set().contains(k));
                let j = choose|j: int| 0 <= j < ks@.len() && borrowed(ks@)[j] == k;
                assert(!other@.contains_key(borrowed(ks@)[j]));
            }
        }
        true
    }

    /// Whether every key of this map is a key of `other`. The keys of this
    /// map are walked under `our_guard`, and each is looked up in `other`
    /// under `their_guard`.
    pub fn guarded_subset<W>(
        &self,
        other: &HashMap<K, W>,
        our_guard: &Guard<'_>,
        their_guard: &Guard<'_>,
    ) -> (b: bool)
        requires
            self.wf(),
            other.wf(),
        ensures
            b == self@.dom().subset_of(other@.dom()),
    {
        let ks = self.keys(our_guard);
        let mut i: usize = 0;
        while i < ks.len()
            invariant
                other.wf(),
                i <= ks.len(),
                borrowed(ks@).to_set() == self@.dom(),
                forall|j: int| 0 <= j < i ==> other@.contains_key(#[trigger] borrowed(ks@)[j]),
            decreases ks.len() - i,
        {
            if !other.contains_key(ks[i], their_guard) {
                proof {
                    let k = borrowed(ks@)[i as int];
                    assert(borrowed(ks@).contains(k));
                    assert(self@.dom().contains(k));
                }
                return false;
            }
            i = i + 1;
        }
        proof {
            assert forall|k: K| self@.dom().contains(k) implies other@.dom().contains(k) by {
                assert(borrowed(ks@).to_set().contains(k));
                let j = choose|j: int| 0 <= j < ks@.len() && borrowed(ks@)[j] == k;
                assert(other@.contains_key(borrowed(ks@)[j]));
            }
        }
        true
    }

    /// Whether every key of `other` is a key of this map.
    pub fn guarded_superset<W>(
        &self,
        other: &HashMap<K, W>,
        our_guard: &Guard<'_>,
        their_guard: &Guard<'_>,
    ) -> (b: bool)
        requires
            self.wf(),
            other.wf(),
        ensures
            b == other@.dom().subset_of(self@.dom()),
    {
        other.guarded_subset(self, their_guard, our_guard)
    }

    /// Whether the two maps have the same keys: as many, and every key of
    /// this map is a key of `other`.
    pub fn guarded_same_keys<W>(
        &self,
        other: &HashMap<K, W>,
        our_guard: &Guard<'_>,
        their_guard: &Guard<'_>,
    ) -> (b: bool)
        requires
            self.wf(),
            other.wf(),
        ensures
            b == (self@.dom() == other@.dom()),
    {
        if self.len() != other.len() {
            return false;
        }
        let b = self.guarded_subset(other, our_guard, their_guard);
        proof {
            if b {
                vstd::set_lib::lemma_subset_equality(self@.dom(), other@.dom());
            }
        }
        b
    }
}

/// The map after storing each entry of `entries`, first to last.
pub open spec fn spec_insert_all<K, V>(m: Map<K, V>, entries: Seq<(K, V)>) -> Map<K, V>
    decreases entries.len(),
{
    if entries.len() == 0 {
        m
    } else {
        spec_insert_all(m, entries.drop_last()).insert(entries.last().0, entries.last().1)
    }
}

/// The capacity that a table of `capacity` bins is doubled up to so that
/// `need` entries stay below its threshold: the first that has room for
/// them, or the largest there is.
pub open spec fn spec_grown(capacity: int, need: int) -> int
    decreases 2 * MAXIMUM_CAPACITY - capacity,
{
    if capacity <= 0 || capacity >= MAXIMUM_CAPACITY || spec_threshold(capacity as nat) > need {
        capacity
    } else {
        spec_grown(2 * capacity, need)
    }
}

impl<K: Key + Send + Sync, V: Send + Sync> HashMap<K, V> {
    /// Removes every entry. The table keeps its size; a resize that is
    /// under way is dropped. The old tables are handed to reclamation.
    pub fn clear(&mut self, guard: &Guard<'_>)
        requires
            old(self).wf(),
        ensures
            final(self).wf(),
            final(self)@ == Map::<K, V>::empty(),
            final(self).spec_capacity() == old(self).spec_capacity(),
            final(self).spec_generation() == old(self).spec_generation(),
            !final(self).resizing(),
    {
        let n = self.table.len();
        let mut table: Vec<Bin<K, V>> = empty_bins(n);
        let mut next: Vec<Bin<K, V>> = Vec::new();
        core::mem::swap(&mut self.table, &mut table);
        core::mem::swap(&mut self.next, &mut next);
        self.cursor = 0;
        self.count = 0;
        proof {
            assert forall|k: K| !self.home(k.spec_hash())@.contains_key(k) by {
                let h = k.spec_hash();
                lemma_index_in_range(h, n as u64);
                let b = self.table@[index_of(h, n as nat)];
                assert(b is Empty);
                assert(b.nodes() =~= Seq::empty());
            }
            assert(self@ =~= Map::<K, V>::empty());
        }
        guard.retire(table);
        guard.retire(next);
    }

    /// Makes room for `additional` more entries: ends a resize that is
    /// under way, and then doubles the table until that many entries on top
    /// of those it holds stay below its threshold.
    pub fn reserve(&mut self, additional: usize, guard: &Guard<'_>)
        requires
            old(self).wf(),
        ensures
            final(self).wf(),
            final(self)@ == old(self)@,
            final(self).grown_from(old(self)),
            !final(self).resizing(),
            final(self).spec_capacity() == spec_grown(
                (if old(self).resizing() {
                    2 * old(self).spec_capacity()
                } else {
                    old(self).spec_capacity()
                }) as int,
                old(self)@.len() + additional,
            ),
    {
        let ghost before = self@;
        let ghost need_all = self@.len() + additional;
        self.finish_transfer(guard);
        let ghost goal = spec_grown(self.spec_capacity() as int, need_all);
        let need: usize = match self.count.checked_add(additional) {
            Some(sum) => sum,
            None => usize::MAX,
        };
        let ghost start = *self;
        while self.table.len() < MAXIMUM_CAPACITY && self.table.len() - self.table.len() / 4
            <= need
            invariant
                self.inv(),
                self.grown_from(&start),
                self@ == before,
                !self.resizing(),
                need <= need_all,
                need == need_all || need == usize::MAX,
                self.count <= need,
                spec_grown(self.spec_capacity() as int, need_all) == goal,
            decreases MAXIMUM_CAPACITY - self.table@.len(),
        {
            self.begin_resize();
            self.finish_transfer(guard);
        }
    }

    /// Takes the node at place `at` of bin `i` out of a map that is not
    /// being resized.
    fn remove_node(&mut self, i: usize, at: usize) -> (node: Node<K, V>)
        requires
            old(self).inv(),
            old(self).next@.len() == 0,
            i < old(self).table@.len(),
            at < old(self).table@[i as int].nodes().len(),
        ensures
            final(self).inv(),
            final(self).next@.len() == 0,
            final(self).table@.len() == old(self).table@.len(),
            final(self).generation == old(self).generation,
            node == old(self).table@[i as int].nodes()[at as int],
            final(self).table@[i as int].nodes() == old(self).table@[i as int].nodes().remove(
                at as int,
            ),
            forall|j: int|
                0 <= j < old(self).table@.len() && j != i ==> #[trigger] final(self).table@[j]
                    == old(self).table@[j],
            final(self)@ == old(self)@.remove(node.key),
            old(self)@.contains_key(node.key),
            old(self)@[node.key] == node.value,
            index_of(node.key.spec_hash(), old(self).table@.len()) == i,
    {
        let ghost pre = *self;
        let ghost n = self.table@.len();
        let node = self.table[i].remove_at(at);
        proof {
            let hash = node.key.spec_hash();
            assert(pre.table@[i as int]@.contains_key(node.key));
            assert(index_of(hash, n) == i);
            assert(pre.home(hash) == pre.table@[i as int]);
            assert(self.home(hash) == self.table@[i as int]);
            Self::lemma_home_replaced(pre, *self, hash);
            assert forall|k: K| #[trigger]
                self@.contains_key(k) == pre@.remove(node.key).contains_key(k) by {
                let h2 = k.spec_hash();
                assert(self.home(h2) == (if pre.same_home(hash, h2) {
                    self.home(hash)
                } else {
                    pre.home(h2)
                }));
            }
            assert forall|k: K| #[trigger] self@.contains_key(k) implies self@[k] == pre@.remove(
                node.key,
            )[k] by {
                let h2 = k.spec_hash();
                assert(self.home(h2) == (if pre.same_home(hash, h2) {
                    self.home(hash)
                } else {
                    pre.home(h2)
                }));
            }
            assert(self@ =~= pre@.remove(node.key));
            assert(self@.dom() =~= pre@.dom().remove(node.key));
            assert(self.tables_wf());
        }
        self.count = self.count - 1;
        proof {
            // the count is no part of the tables, nor of the view
            assert(self.tables_wf());
            assert(self@ == pre@.remove(node.key));
        }
        node
    }

    /// Keeps the entries that `f` says `true` of and removes the others.
    /// Each entry is shown to `f` once; the nodes of those that go are
    /// handed to reclamation. A resize that is under way is ended first.
    pub fn retain<F: FnMut(&K, &V) -> bool>(&mut self, mut f: F, guard: &Guard<'_>)
        requires
            old(self).wf(),
            forall|k: K, v: V| old(self)@.contains_pair(k, v) ==> call_requires(f, (&k, &v)),
        ensures
            final(self).wf(),
            final(self)@.submap_of(old(self)@),
            final(self).grown_from(old(self)),
            forall|k: K|
                old(self)@.contains_key(k) ==> call_ensures(
                    f,
                    (&k, &old(self)@[k]),
                    #[trigger] final(self)@.contains_key(k),
                ),
    {
        self.finish_transfer(guard);
        let ghost before = self@;
        let ghost f0 = f;
        let ghost start = *self;
        let n = self.table.len();
        let mut i: usize = 0;
        while i < n
            invariant
                f == f0,
                self.inv(),
                self.grown_from(&start),
                self.next@.len() == 0,
                n == self.table@.len(),
                i <= n,
                forall|k: K| #[trigger]
                    self@.contains_key(k) ==> before.contains_key(k) && before[k] == self@[k],
                forall|k: K, v: V| before.contains_pair(k, v) ==> call_requires(f, (&k, &v)),
                forall|k: K|
                    before.contains_key(k) && !(#[trigger] self@.contains_key(k)) ==> call_ensures(
                        f,
                        (&k, &before[k]),
                        false,
                    ),
                forall|k: K|
                    #[trigger] self@.contains_key(k) && index_of(k.spec_hash(), n as nat) < i
                        ==> call_ensures(f, (&k, &before[k]), true),
            decreases n - i,
        {
            let mut t: usize = 0;
            while t < self.table[i].len()
                invariant
                    f == f0,
                    self.inv(),
                    self.grown_from(&start),
                    self.next@.len() == 0,
                    n == self.table@.len(),
                    i < n,
                    t <= self.table@[i as int].nodes().len(),
                    forall|k: K| #[trigger]
                    self@.contains_key(k) ==> before.contains_key(k) && before[k] == self@[k],
                    forall|k: K, v: V| before.contains_pair(k, v) ==> call_requires(f, (&k, &v)),
                    forall|k: K|
                        before.contains_key(k) && !(#[trigger] self@.contains_key(k))
                            ==> call_ensures(f, (&k, &before[k]), false),
                    forall|k: K|
                        #[trigger] self@.contains_key(k) && index_of(k.spec_hash(), n as nat) < i
                            ==> call_ensures(f, (&k, &before[k]), true),
                    forall|p: int|
                        0 <= p < t ==> call_ensures(
                            f,
                            (
                                &(#[trigger] self.table@[i as int].nodes()[p]).key,
                                &self.table@[i as int].nodes()[p].value,
                            ),
                            true,
                        ),
                decreases self.table@[i as int].nodes().len() - t,
            {
                let ghost bin = self.table@[i as int];
                let ghost here = bin.nodes()[t as int];
                proof {
                    self.lemma_node_is_entry(i as int, t as int);
                    assert(before.contains_pair(here.key, here.value));
                }
                let keep = {
                    let node = self.table[i].node_at(t);
                    f(&node.key, &node.value)
                };
                if keep {
                    t = t + 1;
                } else {
                    let ghost pre = *self;
                    let node = self.remove_node(i, t);
                    proof {
                        assert forall|p: int| 0 <= p < t implies call_ensures(
                            f,
                            (
                                &(#[trigger] self.table@[i as int].nodes()[p]).key,
                                &self.table@[i as int].nodes()[p].value,
                            ),
                            true,
                        ) by {
                            assert(self.table@[i as int].nodes()[p] == bin.nodes()[p]);
                        }
                    }
                    guard.retire(node);
                }
            }
            proof {
                assert forall|k: K|
                    #[trigger] self@.contains_key(k) && index_of(k.spec_hash(), n as nat) < i
                        + 1 implies call_ensures(f, (&k, &before[k]), true) by {
                    if index_of(k.spec_hash(), n as nat) == i {
                        let bin = self.table@[i as int];
                        assert(self.home(k.spec_hash()) == bin);
                        assert(bin@.contains_key(k));
                        let p = position(bin.nodes(), k);
                        assert(0 <= p < bin.nodes().len());
                        assert(bin.nodes()[p].key == k);
                        lemma_contents_at(bin.nodes(), p);
                        assert(self@[k] == bin.nodes()[p].value);
                        assert(before[k] == self@[k]);
                        assert(p < t);
                    }
                }
            }
            i = i + 1;
        }
        self.settle();
        proof {
            assert forall|k: K| old(self)@.contains_key(k) implies call_ensures(
                f,
                (&k, &old(self)@[k]),
                #[trigger] self@.contains_key(k),
            ) by {
                lemma_index_in_range(k.spec_hash(), n as u64);
            }
        }
    }

    /// Keeps the entries of whose key `f` says `true` and removes the
    /// others. Each key is shown to `f` once; the nodes of those that go
    /// are handed to reclamation. A resize that is under way is ended first.
    pub fn retain_keys<F: FnMut(&K) -> bool>(&mut self, mut f: F, guard: &Guard<'_>)
        requires
            old(self).wf(),
            forall|k: K| old(self)@.contains_key(k) ==> call_requires(f, (&k,)),
        ensures
            final(self).wf(),
            final(self)@.submap_of(old(self)@),
            final(self).grown_from(old(self)),
            forall|k: K|
                old(self)@.contains_key(k) ==> call_ensures(
                    f,
                    (&k,),
                    #[trigger] final(self)@.contains_key(k),
                ),
    {
        self.finish_transfer(guard);
        let ghost before = self@;
        let ghost f0 = f;
        let ghost start = *self;
        let n = self.table.len();
        let mut i: usize = 0;
        while i < n
            invariant
                f == f0,
                self.inv(),
                self.grown_from(&start),
                self.next@.len() == 0,
                n == self.table@.len(),
                i <= n,
                forall|k: K| #[trigger]
                    self@.contains_key(k) ==> before.contains_key(k) && before[k] == self@[k],
                forall|k: K| before.contains_key(k) ==> call_requires(f, (&k,)),
                forall|k: K|
                    before.contains_key(k) && !(#[trigger] self@.contains_key(k)) ==> call_ensures(
                        f,
                        (&k,),
                        false,
                    ),
                forall|k: K|
                    #[trigger] self@.contains_key(k) && index_of(k.spec_hash(), n as nat) < i
                        ==> call_ensures(f, (&k,), true),
            decreases n - i,
        {
            let mut t: usize = 0;
            while t < self.table[i].len()
                invariant
                    f == f0,
                    self.inv(),
                    self.grown_from(&start),
                    self.next@.len() == 0,
                    n == self.table@.len(),
                    i < n,
                    t <= self.table@[i as int].nodes().len(),
                    forall|k: K| #[trigger]
                    self@.contains_key(k) ==> before.contains_key(k) && before[k] == self@[k],
                    forall|k: K| before.contains_key(k) ==> call_requires(f, (&k,)),
                    forall|k: K|
                        before.contains_key(k) && !(#[trigger] self@.contains_key(k))
                            ==> call_ensures(f, (&k,), false),
                    forall|k: K|
                        #[trigger] self@.contains_key(k) && index_of(k.spec_hash(), n as nat) < i
                            ==> call_ensures(f, (&k,), true),
                    forall|p: int|
                        0 <= p < t ==> call_ensures(
                            f,
                            (&(#[trigger] self.table@[i as int].nodes()[p]).key,),
                            true,
                        ),
                decreases self.table@[i as int].nodes().len() - t,
            {
                let ghost bin = self.table@[i as int];
                let ghost here = bin.nodes()[t as int];
                proof {
                    self.lemma_node_is_entry(i as int, t as int);
                    assert(before.contains_key(here.key));
                }
                let keep = {
                    let node = self.table[i].node_at(t);
                    f(&node.key)
                };
                if keep {
                    t = t + 1;
                } else {
                    let ghost pre = *self;
                    let node = self.remove_node(i, t);
                    proof {
                        assert forall|p: int| 0 <= p < t implies call_ensures(
                            f,
                            (&(#[trigger] self.table@[i as int].nodes()[p]).key,),
                            true,
                        ) by {
                            assert(self.table@[i as int].nodes()[p] == bin.nodes()[p]);
                        }
                    }
                    guard.retire(node);
                }
            }
            proof {
                assert forall|k: K|
                    #[trigger] self@.contains_key(k) && index_of(k.spec_hash(), n as nat) < i
                        + 1 implies call_ensures(f, (&k,), true) by {
                    if index_of(k.spec_hash(), n as nat) == i {
                        let bin = self.table@[i as int];
                        assert(self.home(k.spec_hash()) == bin);
                        assert(bin@.contains_key(k));
                        let p = position(bin.nodes(), k);
                        assert(0 <= p < bin.nodes().len());
                        assert(bin.nodes()[p].key == k);
                        lemma_contents_at(bin.nodes(), p);
                        assert(self@[k] == bin.nodes()[p].value);
                        assert(before[k] == self@[k]);
                        assert(p < t);
                    }
                }
            }
            i = i + 1;
        }
        self.settle();
        proof {
            assert forall|k: K| old(self)@.contains_key(k) implies call_ensures(
                f,
                (&k,),
                #[trigger] self@.contains_key(k),
            ) by {
                lemma_index_in_range(k.spec_hash(), n as u64);
            }
        }
    }

    /// In a map that is not being resized, the node at place `at` of bin
    /// `i` is an entry of the map.
    proof fn lemma_node_is_entry(&self, i: int, at: int)
        requires
            self.inv(),
            self.next@.len() == 0,
            0 <= i < self.table@.len(),
            0 <= at < self.table@[i].nodes().len(),
        ensures
            self@.contains_pair(self.table@[i].nodes()[at].key, self.table@[i].nodes()[at].value),
    {
        let bin = self.table@[i];
        let node = bin.nodes()[at];
        lemma_contents_at(bin.nodes(), at);
        assert(bin@.contains_key(node.key));
        assert(index_of(node.key.spec_hash(), self.table@.len()) == i);
        assert(self.home(node.key.spec_hash()) == bin);
    }
}

} // verus!
