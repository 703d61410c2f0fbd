//! A reference to a set, with the calling thread pinned for as long as the
//! reference lives.

use vstd::prelude::*;
use crate::ebr::Guard;
use crate::key::Key;
use crate::map::{spec_grown, HashMap};
use crate::node::borrowed;

verus! {

/// One change to a set.
pub enum SetOp<T> {
    Insert(T),
    Remove(T),
}

impl<T> SetOp<T> {
    /// The element that the operation is about.
    pub open spec fn element(self) -> T {
        match self {
            SetOp::Insert(e) => e,
            SetOp::Remove(e) => e,
        }
    }
}

/// The set after one operation: what `insert` and `remove` leave.
pub open spec fn spec_apply<T>(s: Set<T>, op: SetOp<T>) -> Set<T> {
    match op {
        SetOp::Insert(e) => s.insert(e),
        SetOp::Remove(e) => s.remove(e),
    }
}

/// The set after a run of operations, first to last.
pub open spec fn spec_run<T>(s: Set<T>, ops: Seq<SetOp<T>>) -> Set<T>
    decreases ops.len(),
{
    if ops.len() == 0 {
        s
    } else {
        spec_apply(spec_run(s, ops.drop_last()), ops.last())
    }
}

/// A reference to a [`HashSet`](crate::set::HashSet), made by its `pin`.
///
/// The current thread is pinned for the duration of this reference, which
/// holds back the destruction of what the set hands to reclamation.
pub struct HashSetRef<'set, T> {
    pub map: &'set mut HashMap<T, ()>,
    pub guard: Guard<'set>,
}

impl<'set, T: Key> HashSetRef<'set, T> {
    /// The elements of the set.
    pub open spec fn view(&self) -> Set<T> {
        self.map@.dom()
    }

    /// The invariant of the set referred to.
    pub open spec fn wf(&self) -> bool {
        self.map.wf()
    }

    /// The number of elements.
    pub fn len(&self) -> (n: usize)
        requires
            self.wf(),
        ensures
            n == self@.len(),
    {
        self.map.len()
    }

    /// Whether the set holds no element.
    pub fn is_empty(&self) -> (b: bool)
        requires
            self.wf(),
        ensures
            b == (self@.len() == 0),
    {
        self.map.is_empty()
    }

    /// A borrow of every element, each once, in no order that is promised.
    pub fn iter<'g>(&'g self) -> (r: Vec<&'g T>)
        requires
            self.wf(),
        ensures
            borrowed(r@).no_duplicates(),
            borrowed(r@).to_set() == self@,
            r@.len() == self@.len(),
    {
        self.map.keys(&self.guard)
    }

    /// Whether `value` is an element.
    pub fn contains(&self, value: &T) -> (b: bool)
        requires
            self.wf(),
        ensures
            b == self@.contains(*value),
    {
        self.map.contains_key(value, &self.guard)
    }

    /// The element equal to `value`.
    pub fn get<'g>(&'g self, value: &T) -> (r: Option<&'g T>)
        requires
            self.wf(),
        ensures
            r is Some <==> self@.contains(*value),
            r matches Some(e) ==> *e == *value,
    {
        match self.map.get_key_value(value, &self.guard) {
            Some(kv) => Some(kv.0),
            None => None,
        }
    }

    /// Whether the two sets have no element in common.
    pub fn is_disjoint<'s2>(&self, other: &HashSetRef<'s2, T>) -> (b: bool)
        requires
            self.wf(),
            other.wf(),
        ensures
            b == self@.disjoint(other@),
    {
        self.map.guarded_disjoint(&*other.map, &self.guard, &other.guard)
    }

    /// Whether every element of this set is an element of `other`.
    pub fn is_subset<'s2>(&self, other: &HashSetRef<'s2, T>) -> (b: bool)
        requires
            self.wf(),
            other.wf(),
        ensures
            b == self@.subset_of(other@),
    {
        self.map.guarded_subset(&*other.map, &self.guard, &other.guard)
    }

    /// Whether the two sets have the same elements.
    pub fn eq<'s2>(&self, other: &HashSetRef<'s2, T>) -> (b: bool)
        requires
            self.wf(),
            other.wf(),
        ensures
            b == (self@ == other@),
    {
        self.map.guarded_same_keys(&*other.map, &self.guard, &other.guard)
    }

    /// Whether every element of `other` is an element of this set.
    pub fn is_superset<'s2>(&self, other: &HashSetRef<'s2, T>) -> (b: bool)
        requires
            self.wf(),
            other.wf(),
        ensures
            b == other@.subset_of(self@),
    {
        self.map.guarded_superset(&*other.map, &self.guard, &other.guard)
    }

}

impl<'set, T: Key + Send + Sync> HashSetRef<'set, T> {
    /// Adds `value` to the set. Says whether it was new; an element that
    /// is there already stays as it is.
    pub fn insert(&mut self, value: T) -> (added: bool)
        requires
            old(self).wf(),
            old(self)@.contains(value) || old(self)@.len() < usize::MAX,
        ensures
            final(self).wf(),
            final(self)@ == old(self)@.insert(value),
            added == !old(self)@.contains(value),
            final(self).map.grown_from(old(self).map),
            *final(final(self).map) == *final(old(self).map),
    {
        self.map.insert(value, (), &self.guard).is_none()
    }

    /// Removes `value` from the set. Says whether it was an element.
    pub fn remove(&mut self, value: &T) -> (removed: bool)
        requires
            old(self).wf(),
        ensures
            final(self).wf(),
            final(self)@ == old(self)@.remove(*value),
            removed == old(self)@.contains(*value),
            final(self).map.grown_from(old(self).map),
            *final(final(self).map) == *final(old(self).map),
    {
        self.map.remove(value, &self.guard).is_some()
    }

    /// Removes the element equal to `value` from the set and gives it.
    pub fn take(&mut self, value: &T) -> (r: Option<T>)
        requires
            old(self).wf(),
        ensures
            final(self).wf(),
            final(self)@ == old(self)@.remove(*value),
            r is Some <==> old(self)@.contains(*value),
            r matches Some(e) ==> e == *value,
            final(self).map.grown_from(old(self).map),
            *final(final(self).map) == *final(old(self).map),
    {
        match self.map.take(value, &self.guard) {
            Some(kv) => Some(kv.0),
            None => None,
        }
    }

    /// Keeps the elements that `f` says `true` of and removes the others.
    pub fn retain<F: FnMut(&T) -> bool>(&mut self, mut f: F)
        requires
            old(self).wf(),
            forall|e: T| old(self)@.contains(e) ==> call_requires(f, (&e,)),
        ensures
            final(self).wf(),
            final(self)@.subset_of(old(self)@),
            forall|e: T|
                old(self)@.contains(e) ==> call_ensures(
                    f,
                    (&e,),
                    #[trigger] final(self)@.contains(e),
                ),
            final(self).map.grown_from(old(self).map),
            *final(final(self).map) == *final(old(self).map),
    {
        proof {
            assert forall|k: T| self.map@.contains_key(k) implies call_requires(f, (&k,)) by {
                assert(self@.contains(k));
            }
        }
        let ghost before = self.map@;
        self.map.retain_keys(f, &self.guard);
        proof {
            assert forall|e: T| old(self)@.contains(e) implies call_ensures(
                f,
                (&e,),
                #[trigger] self@.contains(e),
            ) by {
                assert(before.contains_key(e));
                assert(self.map@.contains_key(e) == self@.contains(e));
            }
        }
    }

    /// Removes every element.
    pub fn clear(&mut self)
        requires
            old(self).wf(),
        ensures
            final(self).wf(),
            final(self)@ == Set::<T>::empty(),
            final(self).map.grown_from(old(self).map),
            *final(final(self).map) == *final(old(self).map),
    {
        self.map.clear(&self.guard);
    }

    /// Makes room for `additional` more elements, so that adding them
    /// starts no resize. The elements stay what they are.
    pub fn reserve(&mut self, additional: usize)
        requires
            old(self).wf(),
        ensures
            final(self).wf(),
            final(self)@ == old(self)@,
            final(self).map.spec_capacity() == spec_grown(
                (if old(self).map.resizing() {
                    2 * old(self).map.spec_capacity()
                } else {
                    old(self).map.spec_capacity()
                }) as int,
                old(self)@.len() + additional,
            ),
            final(self).map.grown_from(old(self).map),
            *final(final(self).map) == *final(old(self).map),
    {
        self.map.reserve(additional, &self.guard);
    }

    /// Adds every element of `values` to the set.
    pub fn extend(&mut self, values: Vec<T>)
        requires
            old(self).wf(),
            old(self)@.len() + values@.len() <= usize::MAX,
        ensures
            final(self).wf(),
            final(self)@ == old(self)@.union(values@.to_set()),
            final(self).map.grown_from(old(self).map),
            *final(final(self).map) == *final(old(self).map),
    {
        let ghost before = self@;
        let ghost all = values@;
        proof {
            assert(before.union(all.take(0).to_set()) =~= before);
        }
        for value in it: values
            invariant
                self.wf(),
                it.seq() == all,
                before.len() + all.len() <= usize::MAX,
                self@.len() <= before.len() + it.index(),
                self@ == before.union(all.take(it.index() as int).to_set()),
                self.map.grown_from(old(self).map),
                *final(self.map) == *final(old(self).map),
        {
            proof {
                let i = it.index() as int;
                let done = all.take(i);
                let more = done.push(all[i]);
                assert(all.take(i + 1) =~= more);
                assert forall|e: T| more.to_set().contains(e) == (done.to_set().contains(e) || e
                    == all[i]) by {
                    vstd::seq_lib::lemma_seq_contains_after_push(done, all[i], e);
                }
                assert(before.union(more.to_set()) =~= before.union(done.to_set()).insert(all[i]));
                self.map.lemma_finite();
            }
            self.insert(value);
        }
        proof {
            assert(all.take(all.len() as int) =~= all);
        }
    }

    /// Makes one change to the set. Says whether the set changed.
    pub fn apply(&mut self, op: SetOp<T>) -> (changed: bool)
        requires
            old(self).wf(),
            old(self)@.len() < usize::MAX,
        ensures
            final(self).wf(),
            final(self)@ == spec_apply(old(self)@, op),
            changed == (final(self)@ != old(self)@),
            final(self).map.grown_from(old(self).map),
            *final(final(self).map) == *final(old(self).map),
    {
        match op {
            SetOp::Insert(e) => {
                let added = self.insert(e);
                proof {
                    if !added {
                        assert(self@ =~= old(self)@);
                    }
                }
                added
            },
            SetOp::Remove(e) => {
                let removed = self.remove(&e);
                proof {
                    if !removed {
                        assert(self@ =~= old(self)@);
                    }
                }
                removed
            },
        }
    }

    /// Makes a run of changes to the set, first to last.
    pub fn apply_all(&mut self, ops: Vec<SetOp<T>>)
        requires
            old(self).wf(),
            old(self)@.len() + ops@.len() <= usize::MAX,
        ensures
            final(self).wf(),
            final(self)@ == spec_run(old(self)@, ops@),
            final(self).map.grown_from(old(self).map),
            *final(final(self).map) == *final(old(self).map),
    {
        let ghost before = self@;
        let ghost all = ops@;
        proof {
            assert(all.take(0) =~= Seq::<SetOp<T>>::empty());
        }
        for op in it: ops
            invariant
                self.wf(),
                it.seq() == all,
                before.len() + all.len() <= usize::MAX,
                self@.len() <= before.len() + it.index(),
                self@ == spec_run(before, all.take(it.index() as int)),
                self.map.grown_from(old(self).map),
                *final(self.map) == *final(old(self).map),
        {
            proof {
                let i = it.index() as int;
                assert(all.take(i + 1).drop_last() =~= all.take(i));
                assert(all.take(i + 1).last() == all[i]);
                self.map.lemma_finite();
            }
            self.apply(op);
        }
        proof {
            assert(all.take(all.len() as int) =~= all);
        }
    }
}

} // verus!
