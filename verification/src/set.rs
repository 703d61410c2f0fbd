//! The hash set: a map whose values are unit, with the collector that its
//! guards are pinned on.

use vstd::prelude::*;
use crate::ebr::Guard;
use crate::key::Key;
use crate::map::HashMap;
use crate::node::borrowed;
use crate::set_ref::HashSetRef;

verus! {

/// A hash set.
///
/// Every element is a key of the map inside; the collector is where the
/// guards of this set are pinned. Elements are added and removed through
/// the reference that [`HashSet::pin`] gives.
pub struct HashSet<T> {
    map: HashMap<T, ()>,
    collector: flize::Collector,
}

impl<T: Key> Default for HashSet<T> {
    /// An empty set.
    fn default() -> (set: Self)
        ensures
            set.wf(),
            set@ == Set::<T>::empty(),
    {
        HashSet::new()
    }
}

impl<T: Key> HashSet<T> {
    /// The map inside.
    pub closed spec fn inner(&self) -> HashMap<T, ()> {
        self.map
    }

    /// The elements of the set.
    pub open spec fn view(&self) -> Set<T> {
        self.inner()@.dom()
    }

    /// The set's invariant: that of the map inside.
    pub open spec fn wf(&self) -> bool {
        self.inner().wf()
    }

    /// An empty set.
    pub fn new() -> (set: Self)
        ensures
            set.wf(),
            set@ == Set::<T>::empty(),
    {
        HashSet { map: HashMap::new(), collector: flize::Collector::new() }
    }

    /// A set of the elements of `values`.
    pub fn from_vec(values: Vec<T>) -> (set: Self) where T: Send + Sync
        ensures
            set.wf(),
            set@ == values@.to_set(),
    {
        let mut set = HashSet::new();
        proof {
            assert(Set::<T>::empty().union(values@.to_set()) =~= values@.to_set());
        }
        {
            let mut pinned = set.pin();
            proof {
                assert(pinned@ == Set::<T>::empty());
                assert(pinned@.len() == 0);
                assert(values@.len() == values.len());
            }
            pinned.extend(values);
        }
        set
    }

    /// Pins the calling thread and gives a reference to the set that
    /// holds the guard. Whatever is done through the reference is done to
    /// the set.
    pub fn pin(&mut self) -> (pinned: HashSetRef<'_, T>)
        ensures
            *pinned.map == old(self).inner(),
            final(self).inner() == *final(pinned.map),
    {
        HashSetRef { map: &mut self.map, guard: Guard::pin(&self.collector) }
    }

    /// Pins the calling thread and gives the guard.
    pub fn guard(&self) -> (guard: Guard<'_>) {
        Guard::pin(&self.collector)
    }

    /// The number of elements.
    pub fn len(&self) -> (n: usize)
        requires
            self.wf(),
        ensures
            n == self@.len(),
    {
        self.map.len()
    }

    /// Whether the set holds no element.
    pub fn is_empty(&self) -> (b: bool)
        requires
            self.wf(),
        ensures
            b == (self@.len() == 0),
    {
        self.map.is_empty()
    }

    /// A borrow of every element, each once, in no order that is promised.
    pub fn iter<'g>(&'g self, guard: &Guard<'_>) -> (r: Vec<&'g T>)
        requires
            self.wf(),
        ensures
            borrowed(r@).no_duplicates(),
            borrowed(r@).to_set() == self@,
            r@.len() == self@.len(),
    {
        self.map.keys(guard)
    }

    /// Whether `value` is an element.
    pub fn contains(&self, value: &T, guard: &Guard<'_>) -> (b: bool)
        requires
            self.wf(),
        ensures
            b == self@.contains(*value),
    {
        self.map.contains_key(value, guard)
    }

    /// The element equal to `value`.
    pub fn get<'g>(&'g self, value: &T, guard: &Guard<'_>) -> (r: Option<&'g T>)
        requires
            self.wf(),
        ensures
            r is Some <==> self@.contains(*value),
            r matches Some(e) ==> *e == *value,
    {
        match self.map.get_key_value(value, guard) {
            Some(kv) => Some(kv.0),
            None => None,
        }
    }

    /// Whether the two sets have no element in common.
    pub fn guarded_disjoint(
        &self,
        other: &HashSet<T>,
        our_guard: &Guard<'_>,
        their_guard: &Guard<'_>,
    ) -> (b: bool)
        requires
            self.wf(),
            other.wf(),
        ensures
            b == self@.disjoint(other@),
    {
        self.map.guarded_disjoint(&other.map, our_guard, their_guard)
    }

    /// Whether every element of this set is an element of `other`.
    pub fn guarded_subset(
        &self,
        other: &HashSet<T>,
        our_guard: &Guard<'_>,
        their_guard: &Guard<'_>,
    ) -> (b: bool)
        requires
            self.wf(),
            other.wf(),
        ensures
            b == self@.subset_of(other@),
    {
        self.map.guarded_subset(&other.map, our_guard, their_guard)
    }

    /// Whether every element of `other` is an element of this set.
    pub fn guarded_superset(
        &self,
        other: &HashSet<T>,
        our_guard: &Guard<'_>,
        their_guard: &Guard<'_>,
    ) -> (b: bool)
        requires
            self.wf(),
            other.wf(),
        ensures
            b == other@.subset_of(self@),
    {
        self.map.guarded_superset(&other.map, our_guard, their_guard)
    }

    /// Whether the two sets have the same elements.
    pub fn guarded_eq(
        &self,
        other: &HashSet<T>,
        our_guard: &Guard<'_>,
        their_guard: &Guard<'_>,
    ) -> (b: bool)
        requires
            self.wf(),
            other.wf(),
        ensures
            b == (self@ == other@),
    {
        self.map.guarded_same_keys(&other.map, our_guard, their_guard)
    }
}

} // verus!
