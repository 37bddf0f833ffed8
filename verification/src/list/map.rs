//! The operations of the map.

use vstd::prelude::*;
use crate::height::drawn_height;
use crate::height::xorshift;
use crate::list::clamp_height;
use crate::list::SkipList;
use crate::list::lemma_addr;
use crate::list::link_at;
use crate::list::slot_of;
use crate::list::Entry;
use crate::list::CAPACITY;
use crate::list::HEAD;
use crate::node::HEIGHT;
use crate::order::less;
use crate::order::lt;
use crate::order::same;
use crate::tagged::NULL;

verus! {

impl<K: Ord, V> SkipList<K, V> {
    /// Inserts an entry.
    ///
    /// An entry that the list holds under the same key is removed first and
    /// returned. The new node gets a height drawn afresh and is linked from
    /// the bottom level up; the entry is in the map once that is done.
    #[verifier::spinoff_prover]
    #[verifier::rlimit(50)]
    pub fn insert(&mut self, key: K, val: V) -> (r: Option<(K, V)>)
        requires
            old(self).wf(),
            old(self).spec_len() + old(self).stale() < CAPACITY || old(self)@.dom().contains(key),
        ensures
            final(self).wf(),
            final(self).seed() == xorshift(old(self).seed()),
            final(self).max_height() >= old(self).max_height(),
            final(self)@ == old(self)@.insert(key, val),
            r == if old(self)@.dom().contains(key) {
                Some((key, old(self)@[key]))
            } else {
                None::<(K, V)>
            },
            final(self).stale() <= old(self).stale(),
            final(self).spec_len() == final(self)@.dom().len(),
            final(self).holder(key) is Some,
            1 <= final(self).tower_height(final(self).holder(key)->Some_0)
                <= final(self).max_height() <= HEIGHT,
            old(self).stale() == 0 && !old(self)@.dom().contains(key) ==> final(self).tower_height(
                final(self).holder(key)->Some_0,
            ) == clamp_height(
                drawn_height(final(self).seed()) as int,
                old(self).head_links(),
            ),
    {
        let mut search = self.find(&key, false);
        let mut existing: Option<(K, V)> = None;
        proof {
            assert(self@.dom().contains(key) <==> self.index@.dom().contains(key));
            self.lemma_len();
            old(self).lemma_len();
        }
        if search.target.is_some() {
            existing = self.evict(&search, Ghost(key));
            search = self.find(&key, false);
        } else {
            proof {
                assert(self@ =~= old(self)@.remove(key));
            }
        }
        proof {
            assert(self@.dom().contains(key) <==> self.index@.dom().contains(key));
            self.lemma_len();
        }
        self.link_fresh(key, val, &search);
        proof {
            assert(self@ =~= old(self)@.insert(key, val));
            self.lemma_len();
            self.lemma_live_entries();
            self.lemma_heights(self.holder(key)->Some_0);
        }
        existing
    }

    /// Inserts an entry as `insert` does, unless the key is new and the
    /// arena has no address left for a further node: the entry then comes
    /// back and nothing changes.
    pub fn try_insert(&mut self, key: K, val: V) -> (r: Result<Option<(K, V)>, (K, V)>)
        requires
            old(self).wf(),
        ensures
            final(self).wf(),
            r is Err <==> old(self).spec_len() + old(self).stale() >= CAPACITY
                && !old(self)@.dom().contains(key),
            r is Err ==> r->Err_0 == (key, val) && *final(self) == *old(self),
            r is Ok ==> ({
                &&& final(self)@ == old(self)@.insert(key, val)
                &&& r->Ok_0 == if old(self)@.dom().contains(key) {
                    Some((key, old(self)@[key]))
                } else {
                    None::<(K, V)>
                }
                &&& final(self).seed() == xorshift(old(self).seed())
                &&& final(self).max_height() >= old(self).max_height()
                &&& final(self).stale() <= old(self).stale()
                &&& final(self).spec_len() == final(self)@.dom().len()
                &&& final(self).holder(key) is Some
                &&& 1 <= final(self).tower_height(final(self).holder(key)->Some_0)
                    <= final(self).max_height() <= HEIGHT
            }),
    {
        if self.nodes_held() >= CAPACITY && self.get(&key).is_none() {
            Err((key, val))
        } else {
            Ok(self.insert(key, val))
        }
    }

    /// Inserts an entry where the key is new. Where the list holds the key
    /// already, the value is exchanged in place if `replace` is set, and
    /// the result is the value that is not in the list afterwards: the old
    /// one after an exchange, the given one otherwise.
    #[verifier::spinoff_prover]
    #[verifier::rlimit(50)]
    pub fn internal_insert(&mut self, key: K, val: V, replace: bool) -> (r: Option<V>)
        requires
            old(self).wf(),
            old(self).spec_len() + old(self).stale() < CAPACITY || old(self)@.dom().contains(key),
        ensures
            final(self).wf(),
            final(self).seed() == if old(self)@.dom().contains(key) {
                old(self).seed()
            } else {
                xorshift(old(self).seed())
            },
            final(self).max_height() >= old(self).max_height(),
            r == if !old(self)@.dom().contains(key) {
                None::<V>
            } else if replace {
                Some(old(self)@[key])
            } else {
                Some(val)
            },
            final(self)@ == if old(self)@.dom().contains(key) && !replace {
                old(self)@
            } else {
                old(self)@.insert(key, val)
            },
            final(self).stale() <= old(self).stale(),
            final(self).spec_len() == final(self)@.dom().len(),
    {
        proof {
            old(self).lemma_len();
        }
        let search = self.find(&key, false);
        proof {
            self.lemma_len();
            assert(self@.dom().contains(key) <==> self.index@.dom().contains(key));
            assert(self.index_ok());
        }
        match search.target {
            Some(target) => {
                proof {
                    let t = self.index@[key];
                    lemma_addr(t);
                    assert(self.occupied(t));
                    assert(self.node_ok(t));
                }
                if replace {
                    let out = self.swap_val(target, val);
                    proof {
                        self.lemma_len();
                    }
                    Some(out)
                } else {
                    Some(val)
                }
            },
            None => {
                self.link_fresh(key, val, &search);
                proof {
                    self.lemma_len();
                }
                None
            },
        }
    }

    /// Removes the entry of a key and returns it.
    ///
    /// The node is first marked and frozen, which takes the entry out of
    /// the map, and then unlinked at every level; its slot is free again
    /// when the call returns.
    pub fn remove(&mut self, key: &K) -> (r: Option<(K, V)>)
        requires
            old(self).wf(),
        ensures
            final(self).wf(),
            final(self).seed() == old(self).seed(),
            final(self).max_height() == old(self).max_height(),
            r == if old(self)@.dom().contains(*key) {
                Some((*key, old(self)@[*key]))
            } else {
                None::<(K, V)>
            },
            final(self)@ == old(self)@.remove(*key),
            final(self).stale() <= old(self).stale(),
            final(self).spec_len() == final(self)@.dom().len(),
            old(self).holder(*key) is Some ==> !final(self).is_tower(old(self).holder(*key)->Some_0),
    {
        let search = self.find(key, false);
        let r = if search.target.is_some() {
            self.evict(&search, Ghost(*key))
        } else {
            proof {
                assert(self@ =~= self@.remove(*key));
            }
            None
        };
        proof {
            self.lemma_len();
        }
        r
    }

    /// The entry of a key.
    ///
    /// The walk goes from the top level down, past the live nodes before
    /// the key and past removed nodes, and changes nothing.
    #[verifier::spinoff_prover]
    #[verifier::rlimit(50)]
    pub fn get(&self, key: &K) -> (r: Option<Entry<'_, K, V>>)
        requires
            self.wf(),
        ensures
            r is Some <==> self@.dom().contains(*key),
            r is Some ==> r->Some_0@ == (*key, self@[*key]),
    {
        proof {
            self.lemma_len();
        }
        if self.is_empty() {
            return None;
        }
        let mut level = self.state.max_height;
        let mut curr: usize = HEAD;
        let mut succ: usize = NULL;
        while level > 0
            invariant
                self.wf(),
                level <= HEIGHT,
                self.is_tower(curr),
                level <= self.tower_height(curr),
                0 <= self.state.max_height <= HEIGHT,
                curr != HEAD ==> self.live(slot_of(curr)) && lt(self.key_at(slot_of(curr)), *key),
                level == 0 ==> succ == link_at(
                    self.chain(0),
                    self.first_live(0, self.rank(curr, 0)),
                ) && (succ != NULL ==> self.names_live(succ) && !lt(
                    self.key_at(slot_of(succ)),
                    *key,
                )),
            decreases level, self.chain(level - 1).len() - self.rank(curr, level - 1),
        {
            let l = level - 1;
            proof {
                self.lemma_next(curr, l as int);
                self.lemma_first_live(l as int, self.rank(curr, l as int));
            }
            let next = self.walk(curr, l);
            if next != NULL && less(self.key_ref(next), key) {
                curr = next;
            } else {
                succ = next;
                level -= 1;
            }
        }
        proof {
            self.lemma_bottom();
            self.lemma_next(curr, 0);
            let c = self.chain(0);
            let i = self.rank(curr, 0);
            let j = self.first_live(0, i);
            self.lemma_first_live(0, i);
            crate::order::lemma_lt_irreflexive(*key);
            if self@.dom().contains(*key) {
                let t = self.index@[*key];
                let m = c.index_of(t);
                assert(c[m] == t);
                if curr != HEAD && m < i {
                    if m < i - 1 {
                        crate::order::lemma_lt_transitive(
                            self.key_at(c[m]),
                            self.key_at(c[i - 1]),
                            *key,
                        );
                    }
                    assert(false);
                }
                assert(j <= m);
                if j < m {
                    assert(lt(self.key_at(c[j]), self.key_at(c[m])));
                    lemma_addr(c[j]);
                    assert(false);
                }
                lemma_addr(c[j]);
            }
            if succ != NULL {
                lemma_addr(c[j]);
                assert(self.occupied(c[j]));
                assert(self.node_ok(c[j]));
            }
        }
        if succ != NULL && same(self.key_ref(succ), key) {
            Some(self.entry_ref(succ))
        } else {
            None
        }
    }

    /// The entry with the smallest key.
    pub fn get_first(&self) -> (r: Option<Entry<'_, K, V>>)
        requires
            self.wf(),
        ensures
            r is Some <==> self@.dom().len() > 0,
            r is Some ==> self@.contains_pair(r->Some_0@.0, r->Some_0@.1),
            r is Some ==> forall|k: K|
                self@.dom().contains(k) ==> k == r->Some_0@.0 || lt(r->Some_0@.0, k),
    {
        proof {
            self.lemma_len();
        }
        if self.is_empty() {
            return None;
        }
        let first = self.walk(HEAD, 0);
        proof {
            self.lemma_front(first);
        }
        if first == NULL {
            None
        } else {
            Some(self.entry_ref(first))
        }
    }

    /// The entry with the largest key.
    pub fn get_last(&self) -> (r: Option<Entry<'_, K, V>>)
        requires
            self.wf(),
        ensures
            r is Some <==> self@.dom().len() > 0,
            r is Some ==> self@.contains_pair(r->Some_0@.0, r->Some_0@.1),
            r is Some ==> forall|k: K|
                self@.dom().contains(k) ==> k == r->Some_0@.0 || lt(k, r->Some_0@.0),
    {
        let last = self.last_node();
        if last == NULL {
            None
        } else {
            Some(self.entry_ref(last))
        }
    }

    /// Removes the entry with the smallest key and returns it.
    pub fn remove_first(&mut self) -> (r: Option<(K, V)>)
        requires
            old(self).wf(),
        ensures
            final(self).wf(),
            final(self).seed() == old(self).seed(),
            final(self).max_height() == old(self).max_height(),
            r is Some <==> old(self)@.dom().len() > 0,
            r is Some ==> old(self)@.contains_pair(r->Some_0.0, r->Some_0.1),
            r is Some ==> forall|k: K|
                old(self)@.dom().contains(k) ==> k == r->Some_0.0 || lt(r->Some_0.0, k),
            r is Some ==> final(self)@ == old(self)@.remove(r->Some_0.0),
            r is None ==> final(self)@ == old(self)@,
            final(self).stale() <= old(self).stale(),
            final(self).spec_len() == final(self)@.dom().len(),
    {
        proof {
            self.lemma_len();
        }
        if self.is_empty() {
            return None;
        }
        let first = self.walk(HEAD, 0);
        proof {
            self.lemma_front(first);
        }
        if first == NULL {
            return None;
        }
        let ghost k = self.key_at(slot_of(first));
        let search = self.find_from(None, first, false, Ghost(k));
        let r = self.evict(&search, Ghost(k));
        proof {
            self.lemma_len();
        }
        r
    }

    /// The entries in key order, each once.
    #[verifier::spinoff_prover]
    #[verifier::rlimit(50)]
    pub fn to_vec(&self) -> (r: Vec<Entry<'_, K, V>>)
        requires
            self.wf(),
        ensures
            r.len() == self@.dom().len(),
            forall|i: int, j: int| 0 <= i < j < r.len() ==> lt(r[i]@.0, r[j]@.0),
            forall|i: int| 0 <= i < r.len() ==> self@.contains_pair((#[trigger] r[i])@.0, r[i]@.1),
            forall|k: K|
                self@.dom().contains(k) ==> exists|i: int| 0 <= i < r.len() && (#[trigger] r[i])@.0
                    == k,
    {
        let mut out: Vec<Entry<'_, K, V>> = Vec::new();
        let mut it = self.iter();
        proof {
            it.lemma_pending();
        }
        loop
            invariant
                self.wf(),
                it.wf(),
                it.map() == self@,
                it.pending().finite(),
                out.len() + it.pending().len() == self@.dom().len(),
                forall|i: int, j: int| 0 <= i < j < out.len() ==> lt(out[i]@.0, out[j]@.0),
                forall|i: int|
                    0 <= i < out.len() ==> self@.contains_pair((#[trigger] out[i])@.0, out[i]@.1),
                forall|i: int, k: K|
                    0 <= i < out.len() && #[trigger] it.pending().contains(k) ==> lt(
                        (#[trigger] out[i])@.0,
                        k,
                    ),
                forall|k: K|
                    self@.dom().contains(k) ==> it.pending().contains(k) || exists|i: int|
                        0 <= i < out.len() && (#[trigger] out[i])@.0 == k,
            ensures
                it.pending() == Set::<K>::empty(),
            decreases it.pending().len(),
        {
            let ghost before = it;
            let ghost sofar = out@;
            proof {
                self.lemma_len();
                assert(it.pending().subset_of(self@.dom())) by {
                    it.lemma_pending();
                }
                vstd::set_lib::lemma_len_subset(it.pending(), self@.dom());
            }
            match it.next() {
                Some(e) => {
                    out.push(e);
                    proof {
                        it.lemma_pending();
                        assert forall|k: K| self@.dom().contains(k) implies it.pending().contains(
                            k,
                        ) || exists|i: int| 0 <= i < out.len() && (#[trigger] out[i])@.0 == k by {
                            if before.pending().contains(k) {
                                if k == e@.0 {
                                    assert(out[out.len() - 1]@.0 == k);
                                }
                            } else {
                                let i = choose|i: int|
                                    0 <= i < sofar.len() && (#[trigger] sofar[i])@.0 == k;
                                assert(out[i]@.0 == k);
                            }
                        }
                    }
                },
                None => {
                    break ;
                },
            }
        }
        proof {
            assert forall|k: K| self@.dom().contains(k) implies exists|i: int|
                0 <= i < out.len() && (#[trigger] out[i])@.0 == k by {
                assert(!it.pending().contains(k));
            }
            assert(it.pending().len() == 0);
        }
        out
    }
}

} // verus!
