//! A priority queue that yields the smallest value first, over either list.
//!
//! A queue keeps no removed node linked: whatever leaves it is unlinked at
//! once, so every node in its arena is that of a value.

use vstd::prelude::*;
use crate::list::Entry;
use crate::list::IntoIter;
use crate::list::Iter;
use crate::list::IterMut;
use crate::list::CAPACITY;
use crate::order::lt;
use crate::order::total_order;

verus! {

/// A queue of distinct values, the smallest at the front.
pub struct PriorityQueue<L> {
    queue: L,
}

impl PriorityQueue<()> {
    /// An empty queue over the list for a single owner.
    pub fn new<V: Ord>() -> (r: PriorityQueue<crate::skiplist::SkipList<V, ()>>)
        requires
            total_order::<V>(),
        ensures
            r.wf(),
            r@ == Set::<V>::empty(),
    {
        let r = PriorityQueue { queue: crate::skiplist::SkipList::<V, ()>::new() };
        proof {
            assert(r@ =~= Set::<V>::empty());
        }
        r
    }

    /// An empty queue over the list with two-phase removal.
    pub fn new_sync<V: Ord>() -> (r: PriorityQueue<crate::list::SkipList<V, ()>>)
        requires
            total_order::<V>(),
        ensures
            r.wf(),
            r@ == Set::<V>::empty(),
    {
        let r = PriorityQueue { queue: crate::list::SkipList::<V, ()>::new() };
        proof {
            assert(r@ =~= Set::<V>::empty());
        }
        r
    }
}

impl<V: Ord> PriorityQueue<crate::skiplist::SkipList<V, ()>> {
    /// The invariant of the queue between operations: the list underneath
    /// is in order and links no removed node.
    pub closed spec fn wf(self) -> bool {
        self.queue.wf() && self.queue.stale() == 0
    }

    /// The values that the queue holds.
    pub closed spec fn view(self) -> Set<V> {
        self.queue@.dom()
    }

    /// The list of towers underneath.
    pub closed spec fn towers(self) -> crate::list::SkipList<V, ()> {
        self.queue.towers()
    }

    /// What the queue is in terms of the list of towers underneath: its
    /// values are the keys of the list, and it is in order exactly when the
    /// list is and links no removed node.
    pub proof fn lemma_towers(self)
        ensures
            self.wf() == (self.towers().wf() && self.towers().stale() == 0),
            self@ == self.towers()@.dom(),
    {
        self.queue.lemma_towers();
    }

    /// A queue holds finitely many values.
    pub proof fn lemma_finite(self)
        requires
            self.wf(),
        ensures
            self@.finite(),
    {
        self.queue.lemma_len();
    }

    /// The values of a queue in order are totally ordered.
    pub proof fn lemma_total_order(self)
        requires
            self.wf(),
        ensures
            total_order::<V>(),
    {
        self.queue.lemma_total_order();
    }

    /// Adds a value; a value that the queue holds already stays once.
    pub fn push(&mut self, value: V)
        requires
            old(self).wf(),
            old(self)@.len() < CAPACITY,
        ensures
            final(self).wf(),
            final(self)@ == old(self)@.insert(value),
    {
        proof {
            self.queue.lemma_len();
        }
        let _ = self.queue.insert(value, ());
        proof {
            assert(self@ =~= old(self)@.insert(value));
        }
    }

    /// The smallest value.
    pub fn peek(&self) -> (r: Option<&V>)
        requires
            self.wf(),
        ensures
            r is Some <==> self@.len() > 0,
            r is Some ==> self@.contains(*r->Some_0),
            r is Some ==> forall|v: V| self@.contains(v) ==> v == *r->Some_0 || lt(*r->Some_0, v),
    {
        match self.queue.get_first() {
            Some(first) => Some(first.key()),
            None => None,
        }
    }

    /// Takes the smallest value out.
    pub fn pop(&mut self) -> (r: Option<V>)
        requires
            old(self).wf(),
        ensures
            final(self).wf(),
            r is Some <==> old(self)@.len() > 0,
            r is Some ==> old(self)@.contains(r->Some_0),
            r is Some ==> forall|v: V|
                old(self)@.contains(v) ==> v == r->Some_0 || lt(r->Some_0, v),
            r is Some ==> final(self)@ == old(self)@.remove(r->Some_0),
            r is None ==> final(self)@ == old(self)@,
    {
        match self.queue.remove_first() {
            Some(first) => {
                proof {
                    assert(self@ =~= old(self)@.remove(first.0));
                }
                Some(first.0)
            },
            None => None,
        }
    }

    /// The number of values.
    pub fn len(&self) -> (r: usize)
        requires
            self.wf(),
        ensures
            r == self@.len(),
    {
        proof {
            self.queue.lemma_len();
        }
        self.queue.len()
    }

    /// Whether the queue holds no value.
    pub fn is_empty(&self) -> (r: bool)
        requires
            self.wf(),
        ensures
            r == (self@.len() == 0),
    {
        proof {
            self.queue.lemma_len();
        }
        self.queue.is_empty()
    }

    /// The values in ascending order, one at a time.
    pub fn iter(&self) -> (r: Iter<'_, V, ()>)
        requires
            self.wf(),
        ensures
            r.wf(),
            r.map().dom() == self@,
            r.pending() == self@,
    {
        self.queue.iter()
    }

    /// The values in ascending order, one at a time, each as a handle on
    /// its entry in the list underneath.
    pub fn iter_mut(&mut self) -> (r: IterMut<'_, V, ()>)
        requires
            old(self).wf(),
        ensures
            r.wf(),
            r.list@.dom() == old(self)@,
            r.list.stale() == 0,
            r.next == old(self).towers().after(crate::list::HEAD),
            *r.list == old(self).towers(),
            final(self).towers() == *final(r.list),
    {
        proof {
            self.queue.lemma_towers();
        }
        self.queue.iter_mut()
    }

    /// The values in ascending order, one at a time, each taken out of the
    /// queue.
    pub fn into_iter(self) -> (r: IntoIter<V, ()>)
        requires
            self.wf(),
        ensures
            r.wf(),
            r@.dom() == self@,
    {
        self.queue.into_iter()
    }
}

impl<V: Ord> PriorityQueue<crate::list::SkipList<V, ()>> {
    /// The invariant of the queue between operations: the list underneath
    /// is in order and links no removed node.
    pub closed spec fn wf(self) -> bool {
        self.queue.wf() && self.queue.stale() == 0
    }

    /// The values that the queue holds.
    pub closed spec fn view(self) -> Set<V> {
        self.queue@.dom()
    }

    /// A queue holds finitely many values.
    pub proof fn lemma_finite(self)
        requires
            self.wf(),
        ensures
            self@.finite(),
    {
        self.queue.lemma_len();
    }

    /// The values of a queue in order are totally ordered.
    pub proof fn lemma_total_order(self)
        requires
            self.wf(),
        ensures
            total_order::<V>(),
    {
        self.queue.lemma_total_order();
    }

    /// Adds a value; a value that the queue holds already stays once.
    pub fn push(&mut self, value: V)
        requires
            old(self).wf(),
            old(self)@.len() < CAPACITY,
        ensures
            final(self).wf(),
            final(self)@ == old(self)@.insert(value),
    {
        proof {
            self.queue.lemma_len();
        }
        let _ = self.queue.insert(value, ());
        proof {
            assert(self@ =~= old(self)@.insert(value));
        }
    }

    /// The entry of the smallest value.
    pub fn peek(&self) -> (r: Option<Entry<'_, V, ()>>)
        requires
            self.wf(),
        ensures
            r is Some <==> self@.len() > 0,
            r is Some ==> self@.contains(r->Some_0@.0),
            r is Some ==> forall|v: V|
                self@.contains(v) ==> v == r->Some_0@.0 || lt(r->Some_0@.0, v),
    {
        self.queue.get_first()
    }

    /// Takes the smallest value out: finds the first entry and removes it
    /// by its key, which unlinks its node at every level.
    pub fn pop(&mut self) -> (r: Option<(V, ())>)
        requires
            old(self).wf(),
        ensures
            final(self).wf(),
            r is Some <==> old(self)@.len() > 0,
            r is Some ==> old(self)@.contains(r->Some_0.0),
            r is Some ==> forall|v: V|
                old(self)@.contains(v) ==> v == r->Some_0.0 || lt(r->Some_0.0, v),
            r is Some ==> final(self)@ == old(self)@.remove(r->Some_0.0),
            r is None ==> final(self)@ == old(self)@,
    {
        let r = self.queue.remove_first();
        proof {
            if r is Some {
                assert(self@ =~= old(self)@.remove(r->Some_0.0));
            }
        }
        r
    }

    /// The number of values.
    pub fn len(&self) -> (r: usize)
        requires
            self.wf(),
        ensures
            r == self@.len(),
    {
        proof {
            self.queue.lemma_len();
        }
        self.queue.len()
    }

    /// Whether the queue holds no value.
    pub fn is_empty(&self) -> (r: bool)
        requires
            self.wf(),
        ensures
            r == (self@.len() == 0),
    {
        proof {
            self.queue.lemma_len();
        }
        self.queue.is_empty()
    }

    /// The values in ascending order, one at a time.
    pub fn iter(&self) -> (r: Iter<'_, V, ()>)
        requires
            self.wf(),
        ensures
            r.wf(),
            r.map().dom() == self@,
            r.pending() == self@,
    {
        self.queue.iter()
    }

    /// The values in ascending order, one at a time, each taken out of the
    /// queue.
    pub fn into_iter(self) -> (r: IntoIter<V, ()>)
        requires
            self.wf(),
        ensures
            r.wf(),
            r@.dom() == self@,
    {
        self.queue.into_iter()
    }
}

} // verus!
