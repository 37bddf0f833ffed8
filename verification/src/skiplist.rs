//! The map for a single owner: an insertion under a key that the list
//! already holds exchanges the value in place.

use vstd::prelude::*;
use crate::height::xorshift;
use crate::list::Entry;
use crate::list::IntoIter;
use crate::list::Iter;
use crate::list::IterMut;
use crate::list::MutEntry;
use crate::list::Removable;
use crate::list::CAPACITY;
use crate::order::lt;
use crate::order::total_order;

verus! {

/// An ordered map from `K` to `V`.
#[verifier::reject_recursive_types(K)]
pub struct SkipList<K, V> {
    list: crate::list::SkipList<K, V>,
}

impl<K: Ord, V> SkipList<K, V> {
    /// The invariant of the list between operations.
    pub closed spec fn wf(self) -> bool {
        self.list.wf()
    }

    /// The map that the list stands for.
    pub closed spec fn view(self) -> Map<K, V> {
        self.list@
    }

    /// The list of towers underneath.
    pub closed spec fn towers(self) -> crate::list::SkipList<K, V> {
        self.list
    }

    /// The count that `len` reports.
    pub closed spec fn spec_len(self) -> nat {
        self.list.spec_len()
    }

    /// The number of removed nodes that some level still holds.
    pub closed spec fn stale(self) -> nat {
        self.list.stale()
    }

    /// What the list is in terms of the list of towers underneath.
    pub proof fn lemma_towers(self)
        ensures
            self.wf() == self.towers().wf(),
            self@ == self.towers()@,
            self.spec_len() == self.towers().spec_len(),
            self.stale() == self.towers().stale(),
    {
    }

    /// The keys of a list in order are totally ordered.
    pub proof fn lemma_total_order(self)
        requires
            self.wf(),
        ensures
            total_order::<K>(),
    {
        self.list.lemma_total_order();
    }

    /// The count that `len` reports is the number of keys of the map,
    /// which is finite.
    pub proof fn lemma_len(self)
        requires
            self.wf(),
        ensures
            self@.dom().finite(),
            self.spec_len() == self@.dom().len(),
    {
        self.list.lemma_len();
    }

    /// An empty list, with a pseudo-random state drawn afresh.
    pub fn new() -> (r: Self)
        requires
            total_order::<K>(),
        ensures
            r.wf(),
            r@ == Map::<K, V>::empty(),
            r.spec_len() == 0,
            r.stale() == 0,
    {
        SkipList { list: crate::list::SkipList::new() }
    }

    /// An empty list whose heights are drawn from `seed` on.
    pub fn with_seed(seed: usize) -> (r: Self)
        requires
            total_order::<K>(),
        ensures
            r.wf(),
            r@ == Map::<K, V>::empty(),
            r.spec_len() == 0,
            r.stale() == 0,
            r.towers().seed() == seed,
    {
        SkipList { list: crate::list::SkipList::with_seed(seed) }
    }

    /// Draws the height of the next node, as the list of towers underneath
    /// does: the pseudo-random state advances by one step, the largest
    /// height seen so far grows to the result where it was smaller, and
    /// nothing else changes.
    pub fn gen_height(&mut self) -> (r: usize)
        requires
            old(self).wf(),
        ensures
            final(self).wf(),
            final(self)@ == old(self)@,
            final(self).spec_len() == old(self).spec_len(),
            final(self).stale() == old(self).stale(),
            final(self).towers().head_links() == old(self).towers().head_links(),
            final(self).towers().seed() == xorshift(old(self).towers().seed()),
            r == crate::list::clamp_height(
                crate::height::drawn_height(final(self).towers().seed()) as int,
                old(self).towers().head_links(),
            ),
            1 <= r <= crate::node::HEIGHT,
            final(self).towers().max_height() == if r > old(self).towers().max_height() {
                r
            } else {
                old(self).towers().max_height()
            },
    {
        self.list.gen_height()
    }

    /// The number of entries.
    pub fn len(&self) -> (r: usize)
        ensures
            r == self.spec_len(),
    {
        self.list.len()
    }

    /// The number of nodes in the arena: the live ones and the removed
    /// ones that some level still links.
    pub fn nodes_held(&self) -> (r: usize)
        requires
            self.wf(),
        ensures
            r == self.spec_len() + self.stale(),
    {
        self.list.nodes_held()
    }

    /// Whether the list has no entry.
    pub fn is_empty(&self) -> (r: bool)
        ensures
            r == (self.spec_len() == 0),
    {
        self.list.is_empty()
    }

    /// Puts a value under a key and returns the value that was there. A
    /// key that is new gets a node of a height drawn afresh, which advances
    /// the pseudo-random state by one step.
    pub fn insert(&mut self, key: K, val: V) -> (r: Option<V>)
        requires
            old(self).wf(),
            old(self).spec_len() + old(self).stale() < CAPACITY || old(self)@.dom().contains(key),
        ensures
            final(self).wf(),
            final(self)@ == old(self)@.insert(key, val),
            r == if old(self)@.dom().contains(key) {
                Some(old(self)@[key])
            } else {
                None::<V>
            },
            final(self).stale() <= old(self).stale(),
            final(self).spec_len() == final(self)@.dom().len(),
            final(self).towers().seed() == if old(self)@.dom().contains(key) {
                old(self).towers().seed()
            } else {
                xorshift(old(self).towers().seed())
            },
            final(self).towers().max_height() >= old(self).towers().max_height(),
    {
        self.internal_insert(key, val, true)
    }

    /// Puts a value under a key unless the key has one; the value comes
    /// back where the key was taken.
    pub fn insert_conditionally(&mut self, key: K, val: V) -> (r: Option<V>)
        requires
            old(self).wf(),
            old(self).spec_len() + old(self).stale() < CAPACITY || old(self)@.dom().contains(key),
        ensures
            final(self).wf(),
            final(self)@ == if old(self)@.dom().contains(key) {
                old(self)@
            } else {
                old(self)@.insert(key, val)
            },
            r == if old(self)@.dom().contains(key) {
                Some(val)
            } else {
                None::<V>
            },
            final(self).stale() <= old(self).stale(),
            final(self).spec_len() == final(self)@.dom().len(),
            final(self).towers().seed() == if old(self)@.dom().contains(key) {
                old(self).towers().seed()
            } else {
                xorshift(old(self).towers().seed())
            },
            final(self).towers().max_height() >= old(self).towers().max_height(),
    {
        self.internal_insert(key, val, false)
    }

    fn internal_insert(&mut self, key: K, val: V, replace: bool) -> (r: Option<V>)
        requires
            old(self).wf(),
            old(self).spec_len() + old(self).stale() < CAPACITY || old(self)@.dom().contains(key),
        ensures
            final(self).wf(),
            r == if !old(self)@.dom().contains(key) {
                None::<V>
            } else if replace {
                Some(old(self)@[key])
            } else {
                Some(val)
            },
            final(self)@ == if old(self)@.dom().contains(key) && !replace {
                old(self)@
            } else {
                old(self)@.insert(key, val)
            },
            final(self).stale() <= old(self).stale(),
            final(self).spec_len() == final(self)@.dom().len(),
            final(self).towers().seed() == if old(self)@.dom().contains(key) {
                old(self).towers().seed()
            } else {
                xorshift(old(self).towers().seed())
            },
            final(self).towers().max_height() >= old(self).towers().max_height(),
    {
        self.list.internal_insert(key, val, replace)
    }

    /// Removes the entry of a key and returns it.
    pub fn remove(&mut self, key: &K) -> (r: Option<(K, V)>)
        requires
            old(self).wf(),
        ensures
            final(self).wf(),
            r == if old(self)@.dom().contains(*key) {
                Some((*key, old(self)@[*key]))
            } else {
                None::<(K, V)>
            },
            final(self)@ == old(self)@.remove(*key),
            final(self).stale() <= old(self).stale(),
            final(self).spec_len() == final(self)@.dom().len(),
    {
        self.internal_remove(key)
    }

    fn internal_remove(&mut self, key: &K) -> (r: Option<(K, V)>)
        requires
            old(self).wf(),
        ensures
            final(self).wf(),
            r == if old(self)@.dom().contains(*key) {
                Some((*key, old(self)@[*key]))
            } else {
                None::<(K, V)>
            },
            final(self)@ == old(self)@.remove(*key),
            final(self).stale() <= old(self).stale(),
            final(self).spec_len() == final(self)@.dom().len(),
    {
        proof {
            self.list.lemma_len();
        }
        if self.is_empty() {
            proof {
                assert(self@.dom() =~= Set::<K>::empty());
                assert(self@ =~= self@.remove(*key));
            }
            return None;
        }
        self.list.remove(key)
    }

    /// Removes the entry with the smallest key and returns it.
    pub fn remove_first(&mut self) -> (r: Option<(K, V)>)
        requires
            old(self).wf(),
        ensures
            final(self).wf(),
            r is Some <==> old(self)@.dom().len() > 0,
            r is Some ==> old(self)@.contains_pair(r->Some_0.0, r->Some_0.1),
            r is Some ==> forall|k: K|
                old(self)@.dom().contains(k) ==> k == r->Some_0.0 || lt(r->Some_0.0, k),
            r is Some ==> final(self)@ == old(self)@.remove(r->Some_0.0),
            r is None ==> final(self)@ == old(self)@,
            final(self).stale() <= old(self).stale(),
            final(self).spec_len() == final(self)@.dom().len(),
    {
        self.list.remove_first()
    }

    /// The entry of a key.
    pub fn get(&self, key: &K) -> (r: Option<Entry<'_, K, V>>)
        requires
            self.wf(),
        ensures
            r is Some <==> self@.dom().contains(*key),
            r is Some ==> r->Some_0@ == (*key, self@[*key]),
    {
        self.list.get(key)
    }

    /// The entry with the smallest key.
    pub fn get_first(&self) -> (r: Option<Entry<'_, K, V>>)
        requires
            self.wf(),
        ensures
            r is Some <==> self@.dom().len() > 0,
            r is Some ==> self@.contains_pair(r->Some_0@.0, r->Some_0@.1),
            r is Some ==> forall|k: K|
                self@.dom().contains(k) ==> k == r->Some_0@.0 || lt(r->Some_0@.0, k),
    {
        self.list.get_first()
    }

    /// The entry with the largest key.
    pub fn get_last(&self) -> (r: Option<Entry<'_, K, V>>)
        requires
            self.wf(),
        ensures
            r is Some <==> self@.dom().len() > 0,
            r is Some ==> self@.contains_pair(r->Some_0@.0, r->Some_0@.1),
            r is Some ==> forall|k: K|
                self@.dom().contains(k) ==> k == r->Some_0@.0 || lt(k, r->Some_0@.0),
    {
        self.list.get_last()
    }

    /// A handle on the entry of a key, through which the entry can be
    /// removed; a removal through it unlinks the node at once.
    pub fn entry(&mut self, key: K) -> (r: Option<Removable<'_, K, V>>)
        requires
            old(self).wf(),
        ensures
            r is Some <==> old(self)@.dom().contains(key),
            r is Some ==> r->Some_0.wf() && r->Some_0@ == (key, old(self)@[key]) && r->Some_0.map()
                == old(self)@ && final(self).towers() == *final(r->Some_0.list)
                && r->Some_0.stale() <= old(self).stale() && r->Some_0.at_once,
            r is None ==> final(self).wf() && final(self)@ == old(self)@ && final(self).stale()
                <= old(self).stale(),
    {
        match self.list.entry(key) {
            Some(handle) => Some(Removable { list: handle.list, node: handle.node, at_once: true }),
            None => None,
        }
    }

    /// A handle on the entry of a key, through which the value can be
    /// exchanged.
    pub fn get_mut(&mut self, key: &K) -> (r: Option<MutEntry<'_, K, V>>)
        requires
            old(self).wf(),
        ensures
            r is Some <==> old(self)@.dom().contains(*key),
            r is Some ==> r->Some_0.wf() && r->Some_0@ == (*key, old(self)@[*key])
                && r->Some_0.map() == old(self)@ && final(self).towers() == *final(r->Some_0.list),
            r is None ==> final(self).wf() && final(self)@ == old(self)@,
    {
        proof {
            self.list.lemma_len();
        }
        if self.is_empty() {
            proof {
                assert(self@.dom() =~= Set::<K>::empty());
            }
            return None;
        }
        self.list.get_mut(key)
    }

    /// A handle on the entry with the smallest key, through which the
    /// value can be exchanged.
    pub fn get_first_mut(&mut self) -> (r: Option<MutEntry<'_, K, V>>)
        requires
            old(self).wf(),
        ensures
            r is Some <==> old(self)@.dom().len() > 0,
            r is Some ==> r->Some_0.wf() && r->Some_0.map() == old(self)@ && old(
                self,
            )@.contains_pair(r->Some_0@.0, r->Some_0@.1) && final(self).towers() == *final(r->Some_0.list),
            r is Some ==> forall|k: K|
                old(self)@.dom().contains(k) ==> k == r->Some_0@.0 || lt(r->Some_0@.0, k),
            r is None ==> final(self).wf() && final(self)@ == old(self)@,
    {
        self.list.get_first_mut()
    }

    /// A handle on the entry with the largest key, through which the value
    /// can be exchanged.
    pub fn get_last_mut(&mut self) -> (r: Option<MutEntry<'_, K, V>>)
        requires
            old(self).wf(),
        ensures
            r is Some <==> old(self)@.dom().len() > 0,
            r is Some ==> r->Some_0.wf() && r->Some_0.map() == old(self)@ && old(
                self,
            )@.contains_pair(r->Some_0@.0, r->Some_0@.1) && final(self).towers() == *final(r->Some_0.list),
            r is Some ==> forall|k: K|
                old(self)@.dom().contains(k) ==> k == r->Some_0@.0 || lt(k, r->Some_0@.0),
            r is None ==> final(self).wf() && final(self)@ == old(self)@,
    {
        self.list.get_last_mut()
    }

    /// The entries in key order, one at a time, each as a handle through
    /// which the value can be exchanged.
    pub fn iter_mut(&mut self) -> (r: IterMut<'_, K, V>)
        requires
            old(self).wf(),
        ensures
            r.wf(),
            r.list@ == old(self)@,
            r.list.stale() == old(self).stale(),
            *r.list == old(self).towers(),
            r.next == old(self).towers().after(crate::list::HEAD),
            final(self).towers() == *final(r.list),
    {
        self.list.iter_mut()
    }

    /// The entries in key order, one at a time.
    pub fn iter(&self) -> (r: Iter<'_, K, V>)
        requires
            self.wf(),
        ensures
            r.wf(),
            r.map() == self@,
            r.pending() == self@.dom(),
    {
        self.list.iter()
    }

    /// The entries in key order, each once.
    pub fn to_vec(&self) -> (r: Vec<Entry<'_, K, V>>)
        requires
            self.wf(),
        ensures
            r.len() == self@.dom().len(),
            forall|i: int, j: int| 0 <= i < j < r.len() ==> lt(r[i]@.0, r[j]@.0),
            forall|i: int| 0 <= i < r.len() ==> self@.contains_pair((#[trigger] r[i])@.0, r[i]@.1),
            forall|k: K|
                self@.dom().contains(k) ==> exists|i: int| 0 <= i < r.len() && (#[trigger] r[i])@.0
                    == k,
    {
        self.list.to_vec()
    }

    /// The entries in key order, one at a time, each taken out of the list.
    pub fn into_iter(self) -> (r: IntoIter<K, V>)
        requires
            self.wf(),
        ensures
            r.wf(),
            r@ == self@,
    {
        self.list.into_iter()
    }
}

impl<K: Ord, V> From<SkipList<K, V>> for crate::list::SkipList<K, V> {
    /// The list of towers that a list for a single owner is made of.
    fn from(list: SkipList<K, V>) -> (r: Self) {
        list.list
    }
}

impl<K: Ord, V> vstd::std_specs::convert::FromSpecImpl<SkipList<K, V>> for crate::list::SkipList<K, V> {
    open spec fn obeys_from_spec() -> bool {
        true
    }

    open spec fn from_spec(list: SkipList<K, V>) -> Self {
        list.towers()
    }
}

} // verus!
