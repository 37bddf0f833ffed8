//! Searches and walks along the levels.

use vstd::prelude::*;
use crate::list::SkipList;
use crate::list::addr_of;
use crate::list::lemma_addr;
use crate::list::lemma_slot;
use crate::list::link_at;
use crate::list::slot_of;
use crate::list::SearchResult;
use crate::list::HEAD;
use crate::node::HEIGHT;
use crate::order::less;
use crate::order::lt;
use crate::order::same;
use crate::tagged::NULL;

verus! {

impl<K: Ord, V> SkipList<K, V> {
    /// Whether the key of the live node `a` is before the key searched for,
    /// which is `key` where one is given and else the key of the live node
    /// `probe`.
    fn before(&self, a: usize, key: Option<&K>, probe: usize, Ghost(k): Ghost<K>) -> (r: bool)
        requires
            self.wf(),
            self.names_live(a),
            match key {
                Some(given) => *given == k,
                None => self.names_live(probe) && self.key_at(slot_of(probe)) == k,
            },
        ensures
            r == lt(self.key_at(slot_of(a)), k),
    {
        proof {
            assert(self.occupied(slot_of(a)));
            assert(self.node_ok(slot_of(a)));
            if key is None {
                assert(self.occupied(slot_of(probe)));
                assert(self.node_ok(slot_of(probe)));
            }
        }
        match key {
            Some(given) => less(self.key_ref(a), given),
            None => less(self.key_ref(a), self.key_ref(probe)),
        }
    }

    /// Whether the live node `a` holds the key searched for.
    fn holds(&self, a: usize, key: Option<&K>, probe: usize, Ghost(k): Ghost<K>) -> (r: bool)
        requires
            self.wf(),
            self.names_live(a),
            match key {
                Some(given) => *given == k,
                None => self.names_live(probe) && self.key_at(slot_of(probe)) == k,
            },
        ensures
            r == (self.key_at(slot_of(a)) == k),
    {
        proof {
            assert(self.occupied(slot_of(a)));
            assert(self.node_ok(slot_of(a)));
            if key is None {
                assert(self.occupied(slot_of(probe)));
                assert(self.node_ok(slot_of(probe)));
            }
        }
        match key {
            Some(given) => same(self.key_ref(a), given),
            None => same(self.key_ref(a), self.key_ref(probe)),
        }
    }

    /// Searches for `key` from the top level down.
    ///
    /// At every level the walk passes the live nodes before the key; a
    /// removed node that it meets is unlinked at that level before the walk
    /// goes on. The result holds, for every level, the last tower before
    /// the key and its successor. The target is the live node that holds
    /// the key, or, where the closest node is asked for, the first live node
    /// at or after the key. The map and the count are unchanged; a removed
    /// node that the walk unlinked at its last level has left the arena.
    pub fn find(&mut self, key: &K, search_closest: bool) -> (r: SearchResult)
        requires
            old(self).wf(),
        ensures
            final(self).wf(),
            final(self).seed() == old(self).seed(),
            final(self).max_height() == old(self).max_height(),
            final(self)@ == old(self)@,
            final(self).found(r, *key, search_closest),
            final(self).stale() <= old(self).stale(),
            final(self).spec_len() == old(self).spec_len(),
            old(self).stale() == 0 ==> *final(self) == *old(self),
            forall|k: K| #[trigger] final(self).holder(k) == old(self).holder(k),
    {
        self.find_from(Some(key), NULL, search_closest, Ghost(*key))
    }

    /// The search behind `find`, for a key that is given or for the key of
    /// a live node of the list itself.
    #[verifier::spinoff_prover]
    #[verifier::rlimit(50)]
    pub(super) fn find_from(
        &mut self,
        key: Option<&K>,
        probe: usize,
        search_closest: bool,
        Ghost(k): Ghost<K>,
    ) -> (r: SearchResult)
        requires
            old(self).wf(),
            match key {
                Some(given) => *given == k,
                None => old(self).names_live(probe) && old(self).key_at(slot_of(probe)) == k,
            },
        ensures
            final(self).wf(),
            final(self).seed() == old(self).seed(),
            final(self).max_height() == old(self).max_height(),
            final(self)@ == old(self)@,
            final(self).found(r, k, search_closest),
            final(self).stale() <= old(self).stale(),
            final(self).spec_len() == old(self).spec_len(),
            key is None ==> final(self).names_live(probe) && final(self).key_at(slot_of(probe))
                == k,
            old(self).stale() == 0 ==> *final(self) == *old(self),
            final(self).index@ == old(self).index@,
    {
        // Start at the highest level that the head links.
        let mut level = self.state.max_height;
        while level > 1 && self.head[level - 1].load_ptr() == NULL
            invariant
                self.wf(),
                *self == *old(self),
                1 <= level <= self.state.max_height,
                forall|l: int|
                    level <= l < HEIGHT ==> #[trigger] self.head[l].target() == NULL
                        || l >= self.state.max_height,
            decreases level,
        {
            level -= 1;
        }
        // Above that level the head is the last tower before any key.
        let mut prev: Vec<(usize, usize)> = Vec::new();
        let mut i: usize = 0;
        while i < HEIGHT
            invariant
                self.wf(),
                *self == *old(self),
                i <= HEIGHT,
                prev.len() == i,
                forall|l: int| 0 <= l < i ==> (#[trigger] prev[l]) == (HEAD, self.head[l].target()),
            decreases HEIGHT - i,
        {
            prev.push((HEAD, self.head[i].load_ptr()));
            i += 1;
        }
        proof {
            assert forall|l: int| level <= l < HEIGHT implies self.bracket(
                l,
                (#[trigger] prev[l]).0,
                prev[l].1,
                k,
            ) by {
                assert(self.head[l].target() == NULL || l >= self.state.max_height);
                self.lemma_empty_level(l);
            }
        }
        let mut curr: usize = HEAD;
        while level > 0
            invariant
                self.wf(),
                self@ == old(self)@,
                self.state.seed == old(self).state.seed,
                self.state.max_height == old(self).state.max_height,
                self.stale() <= old(self).stale(),
                self.spec_len() == old(self).spec_len(),
                old(self).stale() == 0 ==> *self == *old(self),
                self.index@ == old(self).index@,
                level <= HEIGHT,
                prev.len() == HEIGHT,
                self.is_tower(curr),
                level <= self.tower_height(curr),
                curr != HEAD ==> self.live(slot_of(curr)) && lt(self.key_at(slot_of(curr)), k),
                match key {
                    Some(given) => *given == k,
                    None => self.names_live(probe) && self.key_at(slot_of(probe)) == k,
                },
                forall|l: int|
                    level <= l < HEIGHT ==> self.bracket(
                        l,
                        (#[trigger] prev[l]).0,
                        prev[l].1,
                        k,
                    ),
            decreases level, self.chain(level - 1).len() - self.rank(curr, level - 1),
        {
            let l = level - 1;
            let ghost before = *self;
            proof {
                self.lemma_next(curr, l as int);
            }
            let (next, _) = self.load(curr, l);
            let mut advance = false;
            let mut helped = false;
            if next != NULL {
                let (after, tag) = self.load(next, l);
                if tag != 0 {
                    // The successor is frozen: swing the link past it and
                    // look at this level again.
                    proof {
                        assert(before.dead@.contains(slot_of(next)));
                        vstd::set_lib::lemma_set_empty_equivalency_len(before.dead@);
                    }
                    let swung = self.unlink_level(curr, next, after, l);
                    helped = true;
                    proof {
                        assert(swung is Ok);
                        assert forall|m: int| level <= m < HEIGHT implies self.bracket(
                            m,
                            (#[trigger] prev[m]).0,
                            prev[m].1,
                            k,
                        ) by {
                            before.lemma_bracket_frame(
                                *self,
                                l as int,
                                m,
                                prev[m].0,
                                prev[m].1,
                                k,
                            );
                        }
                        if curr != HEAD {
                            assert(before.live(slot_of(curr)));
                        }
                        if key is None {
                            assert(before.live(slot_of(probe)));
                        }
                    }
                } else {
                    if self.before(next, key, probe, Ghost(k)) {
                        advance = true;
                    }
                }
            }
            if helped {
            } else if advance {
                // The successor is before the key: go on from it.
                prev[l] = (curr, next);
                curr = next;
            } else {
                // Nothing at this level is between here and the key: the
                // bracket of the level is found, go one level down.
                prev[l] = (curr, next);
                level -= 1;
                proof {
                    assert forall|m: int| level <= m < HEIGHT implies self.bracket(
                        m,
                        (#[trigger] prev[m]).0,
                        prev[m].1,
                        k,
                    ) by {}
                }
            }
        }
        let succ = prev[0].1;
        let target = if search_closest {
            if succ != NULL {
                Some(succ)
            } else {
                None
            }
        } else {
            proof {
                self.lemma_bracket_holder(0, prev[0].0, succ, k);
                if succ != NULL {
                    self.lemma_next(prev[0].0, 0);
                }
            }
            if succ != NULL && self.holds(succ, key, probe, Ghost(k)) {
                Some(succ)
            } else {
                None
            }
        };
        let r = SearchResult { prev, target };
        proof {
            if self.holder(k) is Some {
                assert forall|l: int|
                    0 <= l < self.tower_height(self.holder(k)->Some_0) implies (
                #[trigger] r.prev[l]).1 == self.holder(k)->Some_0 by {
                    let t = self.index@[k];
                    assert(self.index_ok());
                    assert(self.occupied(t));
                    assert(self.node_ok(t));
                    lemma_addr(t);
                    self.lemma_bracket_holder(l, r.prev[l].0, r.prev[l].1, k);
                }
            }
        }
        r
    }

    /// Follows the links of a level from a live node or the head, past
    /// every removed node, to the first live node, without changing
    /// anything.
    #[verifier::spinoff_prover]
    #[verifier::rlimit(50)]
    pub(super) fn walk(&self, from: usize, l: usize) -> (r: usize)
        requires
            self.wf(),
            self.is_tower(from),
            l < self.tower_height(from),
            from != HEAD ==> self.live(slot_of(from)),
        ensures
            r == link_at(self.chain(l as int), self.first_live(l as int, self.rank(from, l as int))),
            r != NULL ==> self.names_live(r) && l < self.tower_height(r) && self.rank(r, l as int)
                == self.first_live(l as int, self.rank(from, l as int)) + 1 && self.node(
                slot_of(r),
            ).data is Some,
    {
        let ghost c = self.chain(l as int);
        let ghost start = self.rank(from, l as int);
        proof {
            self.lemma_next(from, l as int);
            assert(self.chain_ok(l as int));
        }
        let mut next = self.load(from, l).0;
        let ghost j = start;
        while next != NULL
            invariant
                self.wf(),
                0 <= l < HEIGHT,
                c == self.chain(l as int),
                self.chain_ok(l as int),
                start <= j <= c.len(),
                next == link_at(c, j),
                self.first_live(l as int, start) == self.first_live(l as int, j),
            ensures
                next == link_at(c, self.first_live(l as int, start)),
                next != NULL ==> j < c.len() && self.first_live(l as int, start) == j && self.live(
                    c[j],
                ) && next == addr_of(c[j]),
            decreases c.len() - j,
        {
            proof {
                lemma_addr(c[j]);
                assert(self.occupied(c[j]));
                assert(self.node_ok(c[j]));
            }
            let (after, tag) = self.load(next, l);
            if tag == 0 {
                break ;
            }
            next = after;
            proof {
                j = j + 1;
            }
        }
        proof {
            if next != NULL {
                let t = c[j];
                lemma_addr(t);
                assert(self.occupied(t));
                assert(self.node_ok(t));
                assert(c.contains(t));
                let m = c.index_of(t);
                assert(c[m] == t);
            }
        }
        next
    }

    /// The live node with the largest key, found by a walk along the
    /// bottom level.
    #[verifier::spinoff_prover]
    #[verifier::rlimit(50)]
    pub(super) fn last_node(&self) -> (r: usize)
        requires
            self.wf(),
        ensures
            r != NULL <==> self@.dom().len() > 0,
            r != NULL ==> self.names_live(r) && self@.contains_pair(
                self.entry_at(r).0,
                self.entry_at(r).1,
            ),
            r != NULL ==> forall|k: K|
                self@.dom().contains(k) ==> k == self.entry_at(r).0 || lt(k, self.entry_at(r).0),
    {
        let first = self.walk(HEAD, 0);
        proof {
            self.lemma_front(first);
            self.lemma_bottom();
        }
        if first == NULL {
            return NULL;
        }
        let mut curr = first;
        let ghost c = self.chain(0);
        loop
            invariant
                self.wf(),
                c == self.chain(0),
                self.names_live(curr),
                1 <= self.rank(curr, 0) <= c.len(),
                c[self.rank(curr, 0) - 1] == slot_of(curr),
            ensures
                self.names_live(curr),
                1 <= self.rank(curr, 0) <= c.len(),
                c[self.rank(curr, 0) - 1] == slot_of(curr),
                forall|m: int| self.rank(curr, 0) <= m < c.len() ==> !self.live(#[trigger] c[m]),
            decreases c.len() - self.rank(curr, 0),
        {
            proof {
                self.lemma_next(curr, 0);
                self.lemma_first_live(0, self.rank(curr, 0));
                assert(self.occupied(slot_of(curr)));
                assert(self.node_ok(slot_of(curr)));
            }
            let next = self.walk(curr, 0);
            if next == NULL {
                break ;
            }
            proof {
                let j = self.first_live(0, self.rank(curr, 0));
                lemma_addr(c[j]);
            }
            curr = next;
        }
        proof {
            let i = self.rank(curr, 0) - 1;
            let t = slot_of(curr);
            lemma_slot(curr);
            assert(self.live(c[i]));
            assert(self@.dom().contains(self.key_at(c[i])));
            assert forall|k: K| self@.dom().contains(k) implies k == self.entry_at(curr).0 || lt(
                k,
                self.entry_at(curr).0,
            ) by {
                let s = self.index@[k];
                let m = c.index_of(s);
                assert(c[m] == s);
                if m < i {
                    assert(lt(self.key_at(c[m]), self.key_at(c[i])));
                }
            }
            assert(self@.dom().len() > 0) by {
                self.lemma_len();
                if self@.dom().len() == 0 {
                    assert(self@.dom() =~= Set::<K>::empty());
                }
            }
        }
        curr
    }

    /// The live node that follows a live node or the head at the bottom
    /// level. Removed nodes in between are unlinked there on the way.
    #[verifier::spinoff_prover]
    #[verifier::rlimit(50)]
    pub(super) fn next_node(&mut self, node: usize) -> (r: usize)
        requires
            old(self).wf(),
            old(self).is_tower(node),
            node != HEAD ==> old(self).live(slot_of(node)),
        ensures
            final(self).wf(),
            final(self).seed() == old(self).seed(),
            final(self).max_height() == old(self).max_height(),
            final(self)@ == old(self)@,
            final(self).stale() <= old(self).stale(),
            final(self).spec_len() == old(self).spec_len(),
            final(self).is_tower(node),
            node != HEAD ==> final(self).live(slot_of(node)) && final(self).node(
                slot_of(node),
            ).data == old(self).node(slot_of(node)).data,
            r == final(self).link(node, 0).target(),
            r == link_at(final(self).chain(0), final(self).first_live(0, final(self).rank(node, 0))),
            r != NULL ==> final(self).names_live(r),
    {
        let mut next;
        loop
            invariant
                self.wf(),
                self@ == old(self)@,
                self.state.seed == old(self).state.seed,
                self.state.max_height == old(self).state.max_height,
                self.stale() <= old(self).stale(),
                self.spec_len() == old(self).spec_len(),
                self.is_tower(node),
                node != HEAD ==> self.live(slot_of(node)) && self.node(slot_of(node)).data == old(
                    self,
                ).node(slot_of(node)).data,
            ensures
                next == self.link(node, 0).target(),
                next == link_at(self.chain(0), self.first_live(0, self.rank(node, 0))),
                next != NULL ==> self.names_live(next),
            decreases self.chain(0).len() - self.rank(node, 0),
        {
            proof {
                self.lemma_next(node, 0);
                self.lemma_first_live(0, self.rank(node, 0));
                if node != HEAD {
                    assert(self.occupied(slot_of(node)));
                    assert(self.node_ok(slot_of(node)));
                }
                if self.rank(node, 0) < self.chain(0).len() {
                    assert(self.chain_ok(0));
                    let t = self.chain(0)[self.rank(node, 0)];
                    assert(self.occupied(t));
                    lemma_addr(t);
                }
            }
            next = self.load(node, 0).0;
            if next == NULL {
                break ;
            }
            let (after, tag) = self.load(next, 0);
            if tag == 0 {
                break ;
            }
            let ghost before = *self;
            let swung = self.unlink_level(node, next, after, 0);
            proof {
                if node != HEAD {
                    assert(before.live(slot_of(node)));
                }
            }
        }
        next
    }
}

} // verus!
