//! Handles on single entries, and the cursors over all of them.

use vstd::prelude::*;
use crate::list::lemma_addr;
use crate::list::lemma_slot;
use crate::list::slot_of;
use crate::list::Entry;
use crate::list::SkipList;
use crate::list::HEAD;
use crate::order::lt;
use crate::tagged::NULL;

verus! {

impl<K: Ord, V> SkipList<K, V> {
    /// A handle on the entry of a key, through which the entry can be
    /// removed.
    pub fn entry(&mut self, key: K) -> (r: Option<Removable<'_, K, V>>)
        requires
            old(self).wf(),
        ensures
            r is Some <==> old(self)@.dom().contains(key),
            r is Some ==> r->Some_0.wf() && r->Some_0@ == (key, old(self)@[key]) && r->Some_0.map()
                == old(self)@ && *final(self) == *final(r->Some_0.list) && r->Some_0.stale() <= old(
                self,
            ).stale() && !r->Some_0.at_once,
            r is None ==> final(self).wf() && final(self)@ == old(self)@ && final(self).stale()
                <= old(self).stale() && final(self).seed() == old(self).seed()
                && final(self).max_height() == old(self).max_height(),
    {
        let search = self.find(&key, false);
        proof {
            assert(self.index_ok());
            if self.index@.dom().contains(key) {
                lemma_addr(self.index@[key]);
                assert(self.occupied(self.index@[key]));
                assert(self.node_ok(self.index@[key]));
            }
        }
        match search.target {
            Some(node) => Some(Removable { list: self, node, at_once: false }),
            None => None,
        }
    }

    /// A handle on the entry with the smallest key, through which the
    /// entry can be removed; a removal through it marks the node and leaves
    /// the unlinking to later operations. Removed nodes at the front of the
    /// bottom level are unlinked there on the way.
    pub fn first_entry(&mut self) -> (r: Option<Removable<'_, K, V>>)
        requires
            old(self).wf(),
        ensures
            r is Some <==> old(self)@.dom().len() > 0,
            r is Some ==> r->Some_0.wf() && r->Some_0.map() == old(self)@ && old(
                self,
            )@.contains_pair(r->Some_0@.0, r->Some_0@.1) && *final(self) == *final(r->Some_0.list) && r->Some_0.stale() <= old(self).stale() && !r->Some_0.at_once,
            r is Some ==> forall|k: K|
                old(self)@.dom().contains(k) ==> k == r->Some_0@.0 || lt(r->Some_0@.0, k),
            r is None ==> final(self).wf() && final(self)@ == old(self)@ && final(self).stale()
                <= old(self).stale() && final(self).seed() == old(self).seed()
                && final(self).max_height() == old(self).max_height(),
    {
        let first = self.next_node(HEAD);
        proof {
            self.lemma_front(first);
        }
        if first == NULL {
            None
        } else {
            Some(Removable { list: self, node: first, at_once: false })
        }
    }

    /// The entries in key order, one at a time, each as a handle through
    /// which the value can be exchanged.
    pub fn iter_mut(&mut self) -> (r: IterMut<'_, K, V>)
        requires
            old(self).wf(),
        ensures
            r.wf(),
            *r.list == *old(self),
            r.next == old(self).after(HEAD),
            *final(self) == *final(r.list),
    {
        IterMut::from_list(self)
    }

    /// The entries in key order, one at a time.
    pub fn iter(&self) -> (r: Iter<'_, K, V>)
        requires
            self.wf(),
        ensures
            r.wf(),
            r.map() == self@,
            r.pending() == self@.dom(),
    {
        Iter::from_list(self)
    }

    /// The entries in key order, one at a time, each taken out of the list.
    pub fn into_iter(self) -> (r: IntoIter<K, V>)
        requires
            self.wf(),
        ensures
            r.wf(),
            r@ == self@,
    {
        IntoIter::from_list(self)
    }

    /// A handle on the entry of a key, through which the value can be
    /// exchanged.
    pub fn get_mut(&mut self, key: &K) -> (r: Option<MutEntry<'_, K, V>>)
        requires
            old(self).wf(),
        ensures
            r is Some <==> old(self)@.dom().contains(*key),
            r is Some ==> r->Some_0.wf() && r->Some_0@ == (*key, old(self)@[*key])
                && r->Some_0.map() == old(self)@ && *final(self) == *final(r->Some_0.list),
            r is None ==> final(self).wf() && final(self)@ == old(self)@,
    {
        let search = self.find(key, false);
        proof {
            assert(self.index_ok());
            if self.index@.dom().contains(*key) {
                lemma_addr(self.index@[*key]);
                assert(self.occupied(self.index@[*key]));
                assert(self.node_ok(self.index@[*key]));
            }
        }
        match search.target {
            Some(node) => Some(MutEntry { list: self, node }),
            None => None,
        }
    }

    /// A handle on the entry with the smallest key, through which the
    /// value can be exchanged.
    pub fn get_first_mut(&mut self) -> (r: Option<MutEntry<'_, K, V>>)
        requires
            old(self).wf(),
        ensures
            r is Some <==> old(self)@.dom().len() > 0,
            r is Some ==> r->Some_0.wf() && r->Some_0.map() == old(self)@ && old(
                self,
            )@.contains_pair(r->Some_0@.0, r->Some_0@.1) && *final(self) == *final(r->Some_0.list),
            r is Some ==> forall|k: K|
                old(self)@.dom().contains(k) ==> k == r->Some_0@.0 || lt(r->Some_0@.0, k),
            r is None ==> final(self).wf() && final(self)@ == old(self)@,
    {
        proof {
            self.lemma_len();
        }
        if self.is_empty() {
            return None;
        }
        let first = self.next_node(HEAD);
        proof {
            self.lemma_front(first);
        }
        if first == NULL {
            None
        } else {
            Some(MutEntry { list: self, node: first })
        }
    }

    /// A handle on the entry with the largest key, through which the value
    /// can be exchanged.
    pub fn get_last_mut(&mut self) -> (r: Option<MutEntry<'_, K, V>>)
        requires
            old(self).wf(),
        ensures
            r is Some <==> old(self)@.dom().len() > 0,
            r is Some ==> r->Some_0.wf() && r->Some_0.map() == old(self)@ && old(
                self,
            )@.contains_pair(r->Some_0@.0, r->Some_0@.1) && *final(self) == *final(r->Some_0.list),
            r is Some ==> forall|k: K|
                old(self)@.dom().contains(k) ==> k == r->Some_0@.0 || lt(k, r->Some_0@.0),
            r is None ==> final(self).wf() && final(self)@ == old(self)@ && *final(self) == *old(
                self,
            ),
    {
        let last = self.last_node();
        if last == NULL {
            None
        } else {
            Some(MutEntry { list: self, node: last })
        }
    }
}

/// A handle on one entry of a list that can remove the entry.
#[verifier::reject_recursive_types(K)]
pub struct Removable<'a, K, V> {
    pub list: &'a mut SkipList<K, V>,
    pub node: usize,
    /// Whether a removal through the handle also unlinks the node, or
    /// leaves that to the operations that pass by later.
    pub at_once: bool,
}

impl<'a, K: Ord, V> Removable<'a, K, V> {
    /// The handle names a live node of a list in order.
    pub open spec fn wf(self) -> bool {
        self.list.wf() && self.list.names_live(self.node)
    }

    /// The key and the value the handle stands for.
    pub open spec fn view(self) -> (K, V) {
        self.list.entry_at(self.node)
    }

    /// The map of the list that the handle belongs to.
    pub open spec fn map(self) -> Map<K, V> {
        self.list@
    }

    /// The number of removed nodes that the handle's list still links.
    pub open spec fn stale(self) -> nat {
        self.list.stale()
    }

    /// The key of the entry.
    pub fn key(&self) -> (r: &K)
        requires
            self.wf(),
        ensures
            *r == self@.0,
    {
        self.list.entry_ref(self.node).key
    }

    /// The value of the entry.
    pub fn val(&self) -> (r: &V)
        requires
            self.wf(),
        ensures
            *r == self@.1,
    {
        self.list.entry_ref(self.node).val
    }

    /// Removes the entry from the map and returns it.
    ///
    /// The node is marked and frozen. A handle that removes at once then
    /// unlinks it at every level. Otherwise the node stays linked, and an
    /// operation that passes by later unlinks it. Either way the removal
    /// takes the entry off the count itself.
    pub fn remove(self) -> (r: Option<(K, V)>)
        requires
            self.wf(),
        ensures
            r == Some(self@),
            final(self.list).wf(),
            final(self.list)@ == self.map().remove(self@.0),
            self.map().contains_pair(self@.0, self@.1),
            final(self.list).seed() == old(self.list).seed(),
            final(self.list).max_height() == old(self.list).max_height(),
            self.at_once ==> final(self.list).stale() <= self.stale()
                && !final(self.list).is_tower(self.node),
            !self.at_once ==> final(self.list).is_tower(self.node)
                && !final(self.list).names_live(self.node),
            !self.at_once ==> final(self.list).stale() == self.stale() + 1,
            final(self.list).spec_len() == old(self.list).spec_len() - 1,
            final(self.list).spec_len() == final(self.list)@.dom().len(),
    {
        proof {
            assert(self.list.occupied(slot_of(self.node)));
            assert(self.list.node_ok(slot_of(self.node)));
            self.list.lemma_live_entries();
        }
        let r = if self.at_once {
            let ghost k = self@.0;
            let search = self.list.find_from(None, self.node, false, Ghost(k));
            proof {
                self.list.lemma_live_entries();
                self.list.lemma_unique_keys(self.node, self.list.holder(k)->Some_0);
            }
            self.list.evict(&search, Ghost(k))
        } else {
            match self.list.mark_removed(self.node) {
                Ok(entry) => {
                    self.list.count_down();
                    Some(entry)
                },
                Err(_) => None,
            }
        };
        proof {
            self.list.lemma_len();
        }
        r
    }
}

/// A handle on one entry of a list through which the value can be
/// exchanged.
#[verifier::reject_recursive_types(K)]
pub struct MutEntry<'a, K, V> {
    pub list: &'a mut SkipList<K, V>,
    pub node: usize,
}

impl<'a, K: Ord, V> MutEntry<'a, K, V> {
    /// The handle names a live node of a list in order.
    pub open spec fn wf(self) -> bool {
        self.list.wf() && self.list.names_live(self.node)
    }

    /// The key and the value the handle stands for.
    pub open spec fn view(self) -> (K, V) {
        self.list.entry_at(self.node)
    }

    /// The map of the list that the handle belongs to.
    pub open spec fn map(self) -> Map<K, V> {
        self.list@
    }

    /// The key of the entry.
    pub fn key(&self) -> (r: &K)
        requires
            self.wf(),
        ensures
            *r == self@.0,
    {
        self.list.entry_ref(self.node).key
    }

    /// The value of the entry.
    pub fn val(&self) -> (r: &V)
        requires
            self.wf(),
        ensures
            *r == self@.1,
    {
        self.list.entry_ref(self.node).val
    }

    /// Puts `val` in place of the value and returns the value that was
    /// there.
    pub fn set(self, val: V) -> (r: V)
        requires
            self.wf(),
        ensures
            r == self@.1,
            self.map().contains_pair(self@.0, self@.1),
            final(self.list).wf(),
            final(self.list)@ == self.map().insert(self@.0, val),
            final(self.list).stale() == old(self.list).stale(),
            final(self.list).spec_len() == old(self.list).spec_len(),
            old(self.list).same_shape(*final(self.list)),
    {
        proof {
            self.list.lemma_live_entries();
        }
        self.list.swap_val(self.node, val)
    }
}

/// A cursor over the entries of a list, in key order, that yields handles
/// through which the values can be exchanged.
#[verifier::reject_recursive_types(K)]
pub struct IterMut<'a, K, V> {
    pub list: &'a mut SkipList<K, V>,
    pub next: usize,
}

impl<'a, K: Ord, V> IterMut<'a, K, V> {
    /// The cursor is at a live node of a list in order, or at the end.
    pub open spec fn wf(self) -> bool {
        self.list.wf() && (self.next != NULL ==> self.list.names_live(self.next))
    }

    /// The keys that the cursor has yet to yield: those of the map that are
    /// not before the key it stands at.
    pub open spec fn pending(self) -> Set<K> {
        if self.next == NULL {
            Set::empty()
        } else {
            Set::new(
                |k: K| self.list@.dom().contains(k) && !lt(k, self.list.entry_at(self.next).0),
            )
        }
    }

    /// A cursor at the entry with the smallest key.
    pub fn from_list(list: &'a mut SkipList<K, V>) -> (r: Self)
        requires
            old(list).wf(),
        ensures
            r.wf(),
            *r.list == *old(list),
            r.next == old(list).after(HEAD),
            *final(list) == *final(r.list),
    {
        let next = list.walk(HEAD, 0);
        proof {
            list.lemma_after(HEAD);
        }
        IterMut { list, next }
    }

    /// Yields a handle on the entry the cursor stands at, which has the
    /// smallest key among those still pending, and moves the cursor to the
    /// live node that follows. The list is what the handle leaves of it.
    pub fn next(&mut self) -> (r: Option<MutEntry<'_, K, V>>)
        requires
            old(self).wf(),
        ensures
            *final(final(self).list) == *final(old(self).list),
            r is None <==> old(self).next == NULL,
            r is None ==> *final(self).list == *old(self).list && final(self).next == NULL,
            r is Some ==> ({
                let h = r->Some_0;
                &&& h.wf()
                &&& *h.list == *old(self).list
                &&& h.node == old(self).next
                &&& *final(self).list == *final(h.list)
                &&& final(self).next == old(self).list.after(old(self).next)
            }),
    {
        let curr = self.next;
        if curr == NULL {
            return None;
        }
        proof {
            self.list.lemma_next(curr, 0);
            assert(self.list.occupied(slot_of(curr)));
        }
        self.next = self.list.walk(curr, 0);
        Some(MutEntry { list: &mut *self.list, node: curr })
    }
}

/// A cursor over the entries of a list, in key order.
#[verifier::reject_recursive_types(K)]
pub struct Iter<'a, K, V> {
    list: &'a SkipList<K, V>,
    next: usize,
}

impl<'a, K: Ord, V> Iter<'a, K, V> {
    /// The cursor is at a live node of a list in order, or at the end.
    pub closed spec fn wf(self) -> bool {
        self.list.wf() && (self.next != NULL ==> self.list.names_live(self.next))
    }

    /// The map of the list that the cursor walks.
    pub closed spec fn map(self) -> Map<K, V> {
        self.list@
    }

    /// The keys that the cursor has yet to yield: those of the map that are
    /// not before the key it stands at.
    pub closed spec fn pending(self) -> Set<K> {
        if self.next == NULL {
            Set::empty()
        } else {
            Set::new(
                |k: K|
                    self.list@.dom().contains(k) && !lt(k, self.list.key_at(slot_of(self.next))),
            )
        }
    }

    /// Every pending key is a key of the map, of which there are finitely
    /// many.
    pub proof fn lemma_pending(self)
        requires
            self.wf(),
        ensures
            self.pending().subset_of(self.map().dom()),
            self.map().dom().finite(),
            self.pending().finite(),
    {
        self.list.lemma_len();
        vstd::set_lib::lemma_len_subset(self.pending(), self.list@.dom());
    }

    /// A cursor at the entry with the smallest key.
    pub fn from_list(list: &'a SkipList<K, V>) -> (r: Self)
        requires
            list.wf(),
        ensures
            r.wf(),
            r.map() == list@,
            r.pending() == list@.dom(),
    {
        let next = list.walk(HEAD, 0);
        let r = Iter { list, next };
        proof {
            list.lemma_front(next);
            list.lemma_len();
            if next == NULL {
                assert(list@.dom() =~= Set::<K>::empty());
            } else {
                assert forall|k: K| list@.dom().contains(k) implies !lt(
                    k,
                    list.key_at(slot_of(next)),
                ) by {
                    crate::order::lemma_trichotomy(k, list.key_at(slot_of(next)));
                }
            }
            assert(r.pending() =~= list@.dom());
        }
        r
    }

    /// Yields the entry with the smallest key among those still pending,
    /// and moves on; every key that is pending afterwards is greater.
    #[verifier::spinoff_prover]
    #[verifier::rlimit(50)]
    pub fn next(&mut self) -> (r: Option<Entry<'a, K, V>>)
        requires
            old(self).wf(),
        ensures
            final(self).wf(),
            final(self).map() == old(self).map(),
            r is None <==> old(self).pending() == Set::<K>::empty(),
            r is None ==> final(self).pending() == old(self).pending(),
            r is Some ==> ({
                let e = r->Some_0@;
                &&& old(self).map().contains_pair(e.0, e.1)
                &&& old(self).pending().contains(e.0)
                &&& forall|k: K| old(self).pending().contains(k) ==> k == e.0 || lt(e.0, k)
                &&& final(self).pending() == old(self).pending().remove(e.0)
                &&& forall|k: K| final(self).pending().contains(k) ==> lt(e.0, k)
            }),
    {
        let curr = self.next;
        if curr == NULL {
            return None;
        }
        let list = self.list;
        proof {
            list.lemma_next(curr, 0);
            list.lemma_bottom();
            assert(list.occupied(slot_of(curr)));
        }
        let entry = list.entry_ref(curr);
        let next = list.walk(curr, 0);
        self.next = next;
        proof {
            let kc = list.key_at(slot_of(curr));
            list.lemma_follow(curr, next);
            crate::order::lemma_lt_irreflexive(kc);
            let c = list.chain(0);
            let i = list.rank(curr, 0);
            assert(list.live(c[i - 1]));
            lemma_slot(curr);
            assert(list@.dom().contains(kc));
            assert(old(self).pending().contains(kc));
            assert forall|k: K| old(self).pending().contains(k) implies k == kc || lt(kc, k) by {
                crate::order::lemma_trichotomy(kc, k);
            }
            assert forall|k: K| self.pending().contains(k) implies lt(kc, k) by {
                let kn = list.key_at(slot_of(next));
                crate::order::lemma_trichotomy(kn, k);
                if kn != k {
                    crate::order::lemma_lt_transitive(kc, kn, k);
                }
            }
            assert(self.pending() =~= old(self).pending().remove(kc)) by {
                assert forall|k: K| old(self).pending().remove(kc).contains(k)
                    implies self.pending().contains(k) by {
                    crate::order::lemma_trichotomy(kc, k);
                }
                assert forall|k: K| self.pending().contains(k) implies old(self).pending().remove(
                    kc,
                ).contains(k) by {
                    crate::order::lemma_trichotomy(kc, k);
                }
            }
            assert(!(old(self).pending() =~= Set::<K>::empty()));
        }
        Some(entry)
    }
}

/// The entries of a list in key order, each taken out as it is yielded.
#[verifier::reject_recursive_types(K)]
pub struct IntoIter<K, V> {
    list: SkipList<K, V>,
}

impl<K: Ord, V> IntoIter<K, V> {
    /// The list that is left is in order.
    pub closed spec fn wf(self) -> bool {
        self.list.wf()
    }

    /// The entries that are yet to be yielded.
    pub closed spec fn view(self) -> Map<K, V> {
        self.list@
    }

    /// A cursor that takes the entries of `list` out, smallest key first.
    pub fn from_list(list: SkipList<K, V>) -> (r: Self)
        requires
            list.wf(),
        ensures
            r.wf(),
            r@ == list@,
    {
        IntoIter { list }
    }

    /// Takes out the entry with the smallest key.
    #[verifier::spinoff_prover]
    #[verifier::rlimit(50)]
    pub fn next(&mut self) -> (r: Option<(K, V)>)
        requires
            old(self).wf(),
        ensures
            final(self).wf(),
            r is Some <==> old(self)@.dom().len() > 0,
            r is Some ==> old(self)@.contains_pair(r->Some_0.0, r->Some_0.1),
            r is Some ==> forall|k: K|
                old(self)@.dom().contains(k) ==> k == r->Some_0.0 || lt(r->Some_0.0, k),
            r is Some ==> final(self)@ == old(self)@.remove(r->Some_0.0),
            r is None ==> final(self)@ == old(self)@,
    {
        self.list.remove_first()
    }
}

} // verus!
