//! What the invariant of the list says of towers, links and chains.

use vstd::prelude::*;
use crate::list::SkipList;
use crate::list::addr_of;
use crate::list::lemma_addr;
use crate::list::lemma_count_witness;
use crate::list::lemma_slot;
use crate::list::link_at;
use crate::list::slot_of;
use crate::list::SearchResult;
use crate::list::HEAD;
use crate::node::HEIGHT;
use crate::order::lt;
use crate::order::total_order;
use crate::tagged::NULL;

verus! {

impl<K: Ord, V> SkipList<K, V> {
    /// A tower whose link at a level is untagged is the head or a live node
    /// that the chain of the level holds, and its link names the node that
    /// follows it in the chain.
    #[verifier::spinoff_prover]
    #[verifier::rlimit(50)]
    pub(super) proof fn lemma_successor(self, a: usize, l: int, p: int, n: int)
        requires
            self.inv_with(p, n),
            self.is_tower(a),
            0 <= l < self.tower_height(a),
            self.link(a, l).mark() == 0,
            a != HEAD ==> slot_of(a) != p,
        ensures
            0 <= self.rank(a, l) <= self.chain(l).len(),
            self.link(a, l).target() == link_at(self.chain(l), self.rank(a, l)),
            a != HEAD ==> self.live(slot_of(a)) && self.rank(a, l) >= 1 && self.chain(l)[self.rank(
                a,
                l,
            ) - 1] == slot_of(a),
    {
        assert(self.chain_ok(l));
        if a != HEAD {
            let s = slot_of(a);
            assert(self.occupied(s));
            assert(self.node_ok(s));
            assert(self.complete(s));
            assert(self.node(s).levels[l].mark() == 0);
            assert(self.live(s));
            assert(self.chain(l).contains(s));
            let j = self.chain(l).index_of(s);
            assert(self.chain(l)[j] == s);
        }
    }

    /// A bracket stays one when the list changes at another level only.
    pub(super) proof fn lemma_bracket_frame(
        self,
        post: Self,
        at: int,
        l: int,
        pred: usize,
        succ: usize,
        key: K,
    )
        requires
            self.same_except(post, at),
            self.bracket(l, pred, succ, key),
            self.head.len() == HEIGHT,
            l != at,
            0 <= l < HEIGHT,
        ensures
            post.bracket(l, pred, succ, key),
    {
        assert(post.chain(l) == self.chain(l) && post.head[l] == self.head[l]);
        if pred != HEAD {
            assert(self.live(slot_of(pred)));
        }
        if succ != NULL {
            assert(self.live(slot_of(succ)));
        }
    }

    /// The link of a live node or of the head at a level of its tower leads
    /// to nothing or to a node of the arena that the chain of the level
    /// holds right after it.
    #[verifier::spinoff_prover]
    #[verifier::rlimit(50)]
    pub(super) proof fn lemma_next(self, a: usize, l: int)
        requires
            self.wf(),
            self.is_tower(a),
            0 <= l < self.tower_height(a),
            a != HEAD ==> self.live(slot_of(a)),
        ensures
            self.link(a, l).mark() == 0,
            0 <= self.rank(a, l) <= self.chain(l).len(),
            self.link(a, l).target() == link_at(self.chain(l), self.rank(a, l)),
            0 <= l < HEIGHT,
            self.link(a, l).target() != NULL ==> ({
                let b = self.link(a, l).target();
                &&& b != HEAD
                &&& self.is_tower(b)
                &&& l < self.tower_height(b)
                &&& self.rank(a, l) < self.chain(l).len()
                &&& self.chain(l)[self.rank(a, l)] == slot_of(b)
                &&& self.rank(b, l) == self.rank(a, l) + 1
                &&& (self.link(b, l).mark() == 0 <==> self.live(slot_of(b)))
                &&& self.live(slot_of(b)) ==> self.node(slot_of(b)).data is Some
            }),
    {
        if a != HEAD {
            assert(self.occupied(slot_of(a)));
            assert(self.node_ok(slot_of(a)));
        } else {
            assert(self.chain_ok(l));
        }
        self.lemma_successor(a, l, -1, 0);
        assert(self.chain_ok(l));
        let c = self.chain(l);
        let i = self.rank(a, l);
        if self.link(a, l).target() != NULL {
            let b = self.link(a, l).target();
            let t = c[i];
            lemma_addr(t);
            assert(self.occupied(t));
            assert(self.node_ok(t));
            assert(c.contains(t));
            let m = c.index_of(t);
            assert(c[m] == t);
        }
    }

    /// What the outcome of a search says of the map.
    ///
    /// A search for the holder of a key has a target exactly when the map
    /// holds the key, and the target then names the live node with that
    /// entry. A search for the closest node has as target the live node
    /// with the smallest key that is not before the key searched for, and
    /// none when every key of the map is before it.
    #[verifier::spinoff_prover]
    #[verifier::rlimit(50)]
    pub proof fn lemma_found(self, r: SearchResult, key: K, closest: bool)
        requires
            self.wf(),
            self.found(r, key, closest),
        ensures
            self.holder(key) is Some <==> self@.dom().contains(key),
            !closest ==> (r.target is Some <==> self@.dom().contains(key)),
            !closest && r.target is Some ==> self.names_live(r.target->Some_0) && self.entry_at(
                r.target->Some_0,
            ) == (key, self@[key]),
            closest && r.target is Some ==> ({
                let e = self.entry_at(r.target->Some_0);
                &&& self.names_live(r.target->Some_0)
                &&& self@.contains_pair(e.0, e.1)
                &&& !lt(e.0, key)
                &&& forall|k: K| self@.dom().contains(k) && !lt(k, key) ==> k == e.0 || lt(e.0, k)
            }),
            closest && r.target is None ==> forall|k: K| self@.dom().contains(k) ==> lt(k, key),
    {
        self.lemma_live_entries();
        self.lemma_bottom();
        let pred = r.prev[0].0;
        let succ = r.prev[0].1;
        assert(self.bracket(0, pred, succ, key));
        self.lemma_next(pred, 0);
        let c = self.chain(0);
        let i = self.rank(pred, 0);
        if closest {
            assert forall|k: K| self@.dom().contains(k) && !lt(k, key) implies succ != NULL && (k
                == self.entry_at(succ).0 || lt(self.entry_at(succ).0, k)) by {
                let t = self.index@[k];
                let m = c.index_of(t);
                assert(c[m] == t);
                if m < i {
                    assert(pred != HEAD);
                    assert(self.live(c[i - 1]));
                    if m < i - 1 {
                        assert(lt(self.key_at(c[m]), self.key_at(c[i - 1])));
                        crate::order::lemma_lt_transitive(k, self.key_at(c[i - 1]), key);
                    }
                    assert(false);
                }
                assert(self.chain_ok(0));
                assert(self.occupied(c[i]));
                lemma_addr(c[i]);
                if m > i {
                    assert(self.live(c[i]));
                    assert(lt(self.key_at(c[i]), self.key_at(c[m])));
                }
            }
            if succ == NULL {
                assert forall|k: K| self@.dom().contains(k) implies lt(k, key) by {
                    if !lt(k, key) {
                        assert(succ != NULL);
                    }
                }
            }
        }
    }

    /// What the outcome of a search says of the keys before the key.
    ///
    /// The predecessor at the bottom level is the live node with the
    /// greatest key before the key searched for, and it is the head exactly
    /// when no key of the map is before it.
    #[verifier::spinoff_prover]
    #[verifier::rlimit(50)]
    pub proof fn lemma_found_pred(self, r: SearchResult, key: K, closest: bool)
        requires
            self.wf(),
            self.found(r, key, closest),
        ensures
            r.prev[0].0 == HEAD <==> forall|k: K| self@.dom().contains(k) ==> !lt(k, key),
            r.prev[0].0 != HEAD ==> ({
                let e = self.entry_at(r.prev[0].0);
                &&& self.names_live(r.prev[0].0)
                &&& self@.contains_pair(e.0, e.1)
                &&& lt(e.0, key)
                &&& forall|k: K| self@.dom().contains(k) && lt(k, key) ==> k == e.0 || lt(k, e.0)
            }),
    {
        self.lemma_live_entries();
        self.lemma_bottom();
        let pred = r.prev[0].0;
        let succ = r.prev[0].1;
        assert(self.bracket(0, pred, succ, key));
        self.lemma_next(pred, 0);
        assert(self.chain_ok(0));
        let c = self.chain(0);
        let i = self.rank(pred, 0);
        assert forall|k: K| self@.dom().contains(k) && lt(k, key) implies pred != HEAD && (k
            == self.entry_at(pred).0 || lt(k, self.entry_at(pred).0)) by {
            let t = self.index@[k];
            let m = c.index_of(t);
            assert(c[m] == t);
            if m >= i {
                assert(self.occupied(c[i]));
                lemma_addr(c[i]);
                assert(self.live(c[i]));
                if m > i {
                    assert(lt(self.key_at(c[i]), self.key_at(c[m])));
                    crate::order::lemma_lt_transitive(self.key_at(c[i]), k, key);
                }
                assert(false);
            }
            assert(pred != HEAD);
            assert(self.live(c[i - 1]));
            if m < i - 1 {
                assert(lt(self.key_at(c[m]), self.key_at(c[i - 1])));
            }
        }
        if pred != HEAD {
            lemma_slot(pred);
            assert(self.live(c[i - 1]));
            assert(self@.dom().contains(self.entry_at(pred).0));
        }
    }

    /// What a bracket says of the live nodes of its level.
    ///
    /// Of the live nodes whose towers reach the level, the predecessor has
    /// the greatest key before the key of the bracket and the successor
    /// the smallest key that is not before it: a live node of the level
    /// with a key before that key is the predecessor or has a smaller key
    /// than it, and one with a key not before that key is the successor or
    /// has a greater key than it.
    #[verifier::spinoff_prover]
    #[verifier::rlimit(50)]
    pub proof fn lemma_bracket(self, l: int, pred: usize, succ: usize, key: K, a: usize)
        requires
            self.wf(),
            self.bracket(l, pred, succ, key),
            self.names_live(a),
            l < self.tower_height(a),
        ensures
            lt(self.entry_at(a).0, key) ==> pred != HEAD && (a == pred || lt(
                self.entry_at(a).0,
                self.entry_at(pred).0,
            )),
            !lt(self.entry_at(a).0, key) ==> succ != NULL && (a == succ || lt(
                self.entry_at(succ).0,
                self.entry_at(a).0,
            )),
    {
        self.lemma_next(pred, l);
        assert(self.chain_ok(l));
        let c = self.chain(l);
        let i = self.rank(pred, l);
        let t = slot_of(a);
        lemma_slot(a);
        assert(self.occupied(t));
        assert(self.complete(t));
        assert(self.node_ok(t));
        assert(self.chain(l).contains(t));
        let m = c.index_of(t);
        assert(c[m] == t);
        let ka = self.key_at(t);
        if pred != HEAD {
            lemma_slot(pred);
            assert(self.live(c[i - 1]));
        }
        if i < c.len() {
            assert(self.occupied(c[i]));
            lemma_addr(c[i]);
            assert(self.live(c[i]));
        }
        if m < i {
            // the node is the predecessor or stands before it
            if m < i - 1 {
                assert(lt(self.key_at(c[m]), self.key_at(c[i - 1])));
                crate::order::lemma_lt_transitive(ka, self.key_at(c[i - 1]), key);
            }
        } else {
            // the node is the successor or stands after it
            if m > i {
                assert(lt(self.key_at(c[i]), self.key_at(c[m])));
                if lt(ka, key) {
                    crate::order::lemma_lt_transitive(self.key_at(c[i]), ka, key);
                }
            }
        }
    }

    /// A live node is a tower of the arena and not the head.
    pub proof fn lemma_names_live(self, a: usize)
        requires
            self.names_live(a),
        ensures
            a != HEAD,
            a != NULL,
            self.is_tower(a),
    {
    }

    /// The keys of a list in order are totally ordered.
    pub proof fn lemma_total_order(self)
        requires
            self.wf(),
        ensures
            total_order::<K>(),
    {
    }

    /// The head is a tower of the largest height, with untagged links, and
    /// the largest height drawn so far is between 1 and the largest there
    /// is.
    pub proof fn lemma_head(self)
        requires
            self.wf(),
        ensures
            self.is_tower(HEAD),
            self.tower_height(HEAD) == HEIGHT,
            self.head_links().len() == HEIGHT,
            1 <= self.max_height() <= HEIGHT,
            forall|l: int|
                0 <= l < HEIGHT ==> (#[trigger] self.link(HEAD, l)) == self.head_links()[l]
                    && self.link(HEAD, l).mark() == 0,
    {
        assert forall|l: int| 0 <= l < HEIGHT implies (#[trigger] self.link(HEAD, l))
            == self.head_links()[l] && self.link(HEAD, l).mark() == 0 by {
            assert(self.chain_ok(l));
        }
    }

    /// The count that `len` reports is the number of keys of the map,
    /// which is finite.
    pub proof fn lemma_len(self)
        requires
            self.wf(),
        ensures
            self@.dom().finite(),
            self.spec_len() == self@.dom().len(),
    {
        assert(self@.dom() =~= self.index@.dom());
    }

    /// A level that the head does not link, or that reaches the largest
    /// height seen so far, has an empty chain.
    pub(super) proof fn lemma_empty_level(self, l: int)
        requires
            self.wf(),
            0 <= l < HEIGHT,
            self.head[l].target() == NULL || l >= self.state.max_height,
        ensures
            self.chain(l).len() == 0,
            self.head[l].target() == NULL,
            self.bracket(l, HEAD, NULL, arbitrary()),
    {
        assert(self.chain_ok(l));
        let c = self.chain(l);
        if c.len() > 0 {
            lemma_addr(c[0]);
            assert(self.occupied(c[0]));
            assert(self.node_ok(c[0]));
        }
    }

    /// With brackets at the bottom level, the live node that holds the key
    /// is the successor there, and no other successor holds the key.
    #[verifier::spinoff_prover]
    #[verifier::rlimit(50)]
    pub(super) proof fn lemma_bracket_holder(self, l: int, pred: usize, succ: usize, key: K)
        requires
            self.wf(),
            self.bracket(l, pred, succ, key),
        ensures
            self.holder(key) is Some && l < self.tower_height(self.holder(key)->Some_0) ==> succ
                == self.holder(key)->Some_0,
            succ != NULL && self.key_at(slot_of(succ)) == key ==> self.holder(key) == Some(succ),
    {
        self.lemma_next(pred, l);
        let c = self.chain(l);
        let i = self.rank(pred, l);
        assert(self.chain_ok(l));
        if succ != NULL && self.key_at(slot_of(succ)) == key {
            let t = slot_of(succ);
            assert(self.occupied(t));
            assert(self.complete(t));
            lemma_slot(succ);
        }
        if self.holder(key) is Some && l < self.tower_height(self.holder(key)->Some_0) {
            let t = self.index@[key];
            assert(self.index_ok());
            assert(self.live(t));
            assert(self.occupied(t));
            assert(self.complete(t));
            lemma_addr(t);
            assert(self.chain(l).contains(t));
            let j = c.index_of(t);
            assert(c[j] == t);
            crate::order::lemma_lt_irreflexive(key);
            if pred != HEAD && j < i {
                if j < i - 1 {
                    crate::order::lemma_lt_transitive(
                        self.key_at(c[j]),
                        self.key_at(c[i - 1]),
                        key,
                    );
                }
                assert(false);
            }
            if j > i {
                assert(self.live(c[i]));
                assert(lt(self.key_at(c[i]), self.key_at(c[j])));
                assert(false);
            }
        }
    }

    /// A bracket stays one when every node stays as it is.
    pub(super) proof fn lemma_bracket_same(self, post: Self, l: int, pred: usize, succ: usize, key: K)
        requires
            self.same_nodes(post),
            self.bracket(l, pred, succ, key),
        ensures
            post.bracket(l, pred, succ, key),
    {
        if pred != HEAD {
            assert(self.occupied(slot_of(pred)));
        }
        if succ != NULL {
            assert(self.occupied(slot_of(succ)));
        }
    }

    /// Between a position and the first live node from it on, every node
    /// is a removed one.
    pub(super) proof fn lemma_first_live(self, l: int, i: int)
        requires
            0 <= i <= self.chain(l).len(),
        ensures
            i <= self.first_live(l, i) <= self.chain(l).len(),
            self.first_live(l, i) < self.chain(l).len() ==> self.live(
                self.chain(l)[self.first_live(l, i)],
            ),
            forall|m: int| i <= m < self.first_live(l, i) ==> !self.live(#[trigger] self.chain(l)[m]),
        decreases self.chain(l).len() - i,
    {
        if i < self.chain(l).len() && !self.live(self.chain(l)[i]) {
            self.lemma_first_live(l, i + 1);
        }
    }

    /// A live node that the bottom chain holds stands for an entry of the
    /// map; the entries of the map are those of the live nodes there, and
    /// the live nodes of the bottom chain are in key order.
    #[verifier::spinoff_prover]
    #[verifier::rlimit(50)]
    pub(super) proof fn lemma_bottom(self)
        requires
            self.wf(),
        ensures
            forall|m: int|
                0 <= m < self.chain(0).len() && self.live(#[trigger] self.chain(0)[m])
                    ==> self@.contains_pair(
                    self.key_at(self.chain(0)[m]),
                    self.val_at(self.chain(0)[m]),
                ) && self.entry_at(addr_of(self.chain(0)[m])) == (
                    self.key_at(self.chain(0)[m]),
                    self.val_at(self.chain(0)[m]),
                ),
            forall|k: K| #[trigger]
                self@.dom().contains(k) ==> self.chain(0).contains(self.index@[k]) && self.live(
                    self.index@[k],
                ) && self.key_at(self.index@[k]) == k,
            forall|a: int, b: int|
                0 <= a < b < self.chain(0).len() && self.live(self.chain(0)[a]) && self.live(
                    self.chain(0)[b],
                ) ==> lt(self.key_at(self.chain(0)[a]), self.key_at(self.chain(0)[b])),
    {
        assert(self.chain_ok(0));
        let c = self.chain(0);
        assert forall|m: int| 0 <= m < c.len() && self.live(#[trigger] c[m])
            implies self@.contains_pair(self.key_at(c[m]), self.val_at(c[m])) && self.entry_at(
            addr_of(c[m]),
        ) == (self.key_at(c[m]), self.val_at(c[m])) by {
            assert(self.occupied(c[m]));
            assert(self.complete(c[m]));
            assert(self.node_ok(c[m]));
            lemma_addr(c[m]);
        }
        assert forall|k: K| #[trigger] self@.dom().contains(k) implies self.chain(0).contains(
            self.index@[k],
        ) && self.live(self.index@[k]) && self.key_at(self.index@[k]) == k by {
            assert(self.index_ok());
            let t = self.index@[k];
            assert(self.occupied(t));
            assert(self.complete(t));
            assert(self.node_ok(t));
        }
    }

    /// The first live node of the bottom chain holds the smallest key of
    /// the map, and the map is empty where there is no such node.
    #[verifier::spinoff_prover]
    #[verifier::rlimit(50)]
    pub(super) proof fn lemma_front(self, first: usize)
        requires
            self.wf(),
            first == link_at(self.chain(0), self.first_live(0, 0)),
        ensures
            first == NULL <==> self@.dom().len() == 0,
            first != NULL ==> self.names_live(first) && self@.contains_pair(
                self.entry_at(first).0,
                self.entry_at(first).1,
            ) && self.key_at(slot_of(first)) == self.entry_at(first).0,
            first != NULL ==> forall|k: K|
                self@.dom().contains(k) ==> k == self.entry_at(first).0 || lt(
                    self.entry_at(first).0,
                    k,
                ),
    {
        self.lemma_bottom();
        self.lemma_len();
        self.lemma_first_live(0, 0);
        let c = self.chain(0);
        let j = self.first_live(0, 0);
        if first != NULL {
            lemma_addr(c[j]);
            assert(self.live(c[j]));
            assert(self@.dom().contains(self.key_at(c[j])));
            assert forall|k: K| self@.dom().contains(k) implies k == self.entry_at(first).0 || lt(
                self.entry_at(first).0,
                k,
            ) by {
                let t = self.index@[k];
                let m = c.index_of(t);
                assert(c[m] == t);
                if m > j {
                    assert(lt(self.key_at(c[j]), self.key_at(c[m])));
                }
            }
        } else {
            if self@.dom().len() > 0 {
                let k = self@.dom().choose();
                assert(self@.dom().contains(k));
                let t = self.index@[k];
                let m = c.index_of(t);
                assert(c[m] == t);
                if j < c.len() {
                    lemma_addr(c[j]);
                }
                assert(false);
            }
        }
    }

    /// The live node that follows a live node at the bottom level holds the
    /// smallest key after that node's key.
    #[verifier::spinoff_prover]
    #[verifier::rlimit(50)]
    pub(super) proof fn lemma_follow(self, node: usize, next: usize)
        requires
            self.wf(),
            self.names_live(node),
            next == link_at(self.chain(0), self.first_live(0, self.rank(node, 0))),
        ensures
            forall|k: K|
                self@.dom().contains(k) && lt(self.key_at(slot_of(node)), k) ==> next != NULL
                    && !lt(k, self.key_at(slot_of(next))),
            next != NULL ==> self.names_live(next) && lt(
                self.key_at(slot_of(node)),
                self.key_at(slot_of(next)),
            ) && self@.dom().contains(self.key_at(slot_of(next))),
    {
        self.lemma_bottom();
        self.lemma_next(node, 0);
        let c = self.chain(0);
        let i = self.rank(node, 0);
        let j = self.first_live(0, i);
        self.lemma_first_live(0, i);
        let kn = self.key_at(slot_of(node));
        if next != NULL {
            lemma_addr(c[j]);
            assert(self.live(c[j]));
            assert(self.occupied(c[j]));
            assert(self.live(c[i - 1]));
            assert(lt(self.key_at(c[i - 1]), self.key_at(c[j])));
        }
        assert forall|k: K| self@.dom().contains(k) && lt(kn, k) implies next != NULL && !lt(
            k,
            self.key_at(slot_of(next)),
        ) by {
            let t = self.index@[k];
            let m = c.index_of(t);
            assert(c[m] == t);
            crate::order::lemma_lt_irreflexive(k);
            crate::order::lemma_trichotomy(kn, k);
            if m < i - 1 {
                assert(lt(self.key_at(c[m]), self.key_at(c[i - 1])));
            }
            assert(m >= i);
            assert(j <= m);
            lemma_addr(c[j]);
            if j < m {
                assert(lt(self.key_at(c[j]), self.key_at(c[m])));
                crate::order::lemma_trichotomy(self.key_at(c[j]), k);
            }
        }
    }

    /// No two live nodes hold the same key.
    pub proof fn lemma_unique_keys(self, a: usize, b: usize)
        requires
            self.wf(),
            self.names_live(a),
            self.names_live(b),
            self.entry_at(a).0 == self.entry_at(b).0,
        ensures
            a == b,
    {
        assert(self.occupied(slot_of(a)) && self.occupied(slot_of(b)));
        assert(self.complete(slot_of(a)) && self.complete(slot_of(b)));
        lemma_slot(a);
        lemma_slot(b);
    }

    /// A live node stands for an entry of the map, and every entry of the
    /// map is that of a live node.
    pub proof fn lemma_live_entries(self)
        requires
            self.wf(),
        ensures
            forall|a: usize| #[trigger]
                self.names_live(a) ==> self@.contains_pair(self.entry_at(a).0, self.entry_at(a).1),
            forall|k: K| #[trigger]
                self@.dom().contains(k) ==> self.holder(k) is Some && self.names_live(
                    self.holder(k)->Some_0,
                ) && self.entry_at(self.holder(k)->Some_0) == (k, self@[k]),
            forall|k: K| #[trigger] self.holder(k) is Some ==> self@.dom().contains(k),
    {
        assert forall|a: usize| #[trigger] self.names_live(a) implies self@.contains_pair(
            self.entry_at(a).0,
            self.entry_at(a).1,
        ) by {
            assert(self.occupied(slot_of(a)));
            assert(self.complete(slot_of(a)));
            assert(self.node_ok(slot_of(a)));
        }
        assert forall|k: K| #[trigger] self@.dom().contains(k) implies self.holder(k) is Some
            && self.names_live(self.holder(k)->Some_0) && self.entry_at(self.holder(k)->Some_0)
            == (k, self@[k]) by {
            assert(self.index_ok());
            let t = self.index@[k];
            lemma_addr(t);
            assert(self.occupied(t));
            assert(self.node_ok(t));
        }
    }

    /// Levels do not skip a live node: it is linked at every level of its
    /// tower.
    pub proof fn lemma_live_linked(self, a: usize, l: int)
        requires
            self.wf(),
            self.names_live(a),
            0 <= l < self.tower_height(a),
        ensures
            self.linked_at(a, l),
    {
        assert(self.occupied(slot_of(a)));
        assert(self.complete(slot_of(a)));
    }

    /// What a level links is in the arena, with a tower that reaches the
    /// level: a slot is given back only when no chain holds its node.
    pub proof fn lemma_linked_tower(self, a: usize, l: int)
        requires
            self.wf(),
            0 <= l < HEIGHT,
            self.linked_at(a, l),
        ensures
            a != HEAD,
            self.is_tower(a),
            l < self.tower_height(a),
    {
        assert(self.chain_ok(l));
        let m = self.chain(l).index_of(slot_of(a));
        assert(self.chain(l)[m] == slot_of(a));
    }

    /// Following a level from the head never leaves its chain: the link of
    /// the head, and of every node that the level links, leads to nothing
    /// or to a node that the level links.
    pub proof fn lemma_no_dangling(self, a: usize, l: int)
        requires
            self.wf(),
            0 <= l < HEIGHT,
            a == HEAD || self.linked_at(a, l),
        ensures
            self.link(a, l).target() == NULL || self.linked_at(self.link(a, l).target(), l),
    {
        assert(self.chain_ok(l));
        let c = self.chain(l);
        let i = if a == HEAD {
            0
        } else {
            c.index_of(slot_of(a)) + 1
        };
        if a != HEAD {
            assert(c[i - 1] == slot_of(a));
        }
        if i < c.len() {
            assert(self.occupied(c[i]));
            lemma_addr(c[i]);
        }
    }

    /// The first live node from a position on is the same in two lists
    /// with the same bottom chain and the same live nodes.
    proof fn lemma_first_live_same(self, post: Self, i: int)
        requires
            post.chain(0) == self.chain(0),
            forall|s: int| #[trigger] post.live(s) == self.live(s),
            0 <= i <= self.chain(0).len(),
        ensures
            post.first_live(0, i) == self.first_live(0, i),
        decreases self.chain(0).len() - i,
    {
        if i < self.chain(0).len() && !self.live(self.chain(0)[i]) {
            self.lemma_first_live_same(post, i + 1);
        }
    }

    /// A list that differs from a list in order by values only is in
    /// order too, with the same keys under the same live nodes in the same
    /// places.
    #[verifier::spinoff_prover]
    #[verifier::rlimit(50)]
    pub proof fn lemma_same_shape(self, post: Self)
        requires
            self.wf(),
            self.same_shape(post),
        ensures
            post.wf(),
            post@.dom() == self@.dom(),
            post.stale() == self.stale(),
            post.spec_len() == self.spec_len(),
            post.seed() == self.seed(),
            post.max_height() == self.max_height(),
            forall|a: usize| #[trigger] post.is_tower(a) == self.is_tower(a),
            forall|a: usize| #[trigger] post.names_live(a) == self.names_live(a),
            forall|a: usize|
                self.names_live(a) ==> (#[trigger] post.entry_at(a)).0 == self.entry_at(a).0,
            forall|a: usize|
                a == HEAD || self.names_live(a) ==> #[trigger] post.after(a) == self.after(a),
    {
        assert forall|s: int| post.occupied(s) == self.occupied(s) by {
            if 0 <= s < self.nodes.len() {
                assert(post.nodes[s] is Some <==> self.nodes[s] is Some);
            }
        }
        assert forall|s: int| #[trigger] post.live(s) == self.live(s) by {
            if 0 <= s < self.nodes.len() {
                assert(post.nodes[s] is Some <==> self.nodes[s] is Some);
            }
        }
        assert forall|s: int| self.live(s) implies post.key_at(s) == self.key_at(s) by {
            assert(post.nodes[s] is Some);
            assert(self.occupied(s));
            assert(self.node_ok(s));
        }
        assert forall|l: int| 0 <= l < HEIGHT implies #[trigger] post.chain_ok(l) by {
            assert(self.chain_ok(l));
            let c = self.chain(l);
            assert forall|m: int| 0 <= m < c.len() implies {
                &&& post.occupied(#[trigger] c[m])
                &&& l < post.node(c[m]).levels.len()
                &&& post.node(c[m]).levels[l].target() == link_at(c, m + 1)
            } by {
                assert(self.occupied(c[m]));
                assert(post.nodes[c[m]] is Some);
            }
            assert forall|a: int, b: int|
                0 <= a < b < c.len() && post.live(c[a]) && post.live(c[b]) implies lt(
                post.key_at(c[a]),
                post.key_at(c[b]),
            ) by {
                assert(self.live(c[a]) && self.live(c[b]));
            }
        }
        assert forall|s: int| #[trigger] post.occupied(s) implies post.node_ok(s) && post.complete(
            s,
        ) by {
            assert(self.occupied(s));
            assert(self.node_ok(s));
            assert(self.complete(s));
            assert(post.nodes[s] is Some);
            if post.live(s) {
                assert(self.live(s));
                assert forall|l: int| 0 <= l < post.node(s).levels.len() implies (
                #[trigger] post.chain(l)).contains(s) by {
                    assert(self.chain(l).contains(s));
                }
            }
        }
        assert(post.index_ok()) by {
            assert(self.index_ok());
            assert forall|k: K| #[trigger] post.index@.dom().contains(k) implies post.live(
                post.index@[k],
            ) && post.key_at(post.index@[k]) == k by {
                assert(self.live(self.index@[k]));
            }
        }
        assert(post.free_ok()) by {
            assert(self.free_ok());
            assert forall|a: int| 0 <= a < post.free.len() implies (#[trigger] post.free[a])
                < post.nodes.len() && post.nodes[post.free[a] as int] is None by {
                let f = self.free[a] as int;
                assert(self.nodes[f] is None);
                assert(post.nodes[f] is Some <==> self.nodes[f] is Some);
            }
        }
        assert forall|s: int| post.dead@.contains(s) <==> #[trigger] post.occupied(s) && post.node(
            s,
        ).removed_spec() by {
            assert(self.dead@.contains(s) <==> self.occupied(s) && self.node(s).removed_spec());
            if 0 <= s < self.nodes.len() {
                assert(post.nodes[s] is Some <==> self.nodes[s] is Some);
            }
        }
        assert(post@.dom() =~= self@.dom());
        assert forall|a: usize| #[trigger] post.is_tower(a) == self.is_tower(a) by {}
        assert forall|a: usize| #[trigger] post.names_live(a) == self.names_live(a) by {}
        assert forall|a: usize| self.names_live(a) implies (#[trigger] post.entry_at(a)).0
            == self.entry_at(a).0 by {
            assert(self.live(slot_of(a)));
        }
        assert forall|a: usize| a == HEAD || self.names_live(a) implies #[trigger] post.after(a)
            == self.after(a) by {
            if a != HEAD {
                self.lemma_next(a, 0);
            }
            self.lemma_first_live_same(post, self.rank(a, 0));
        }
    }

    /// What follows a tower at the bottom level.
    ///
    /// After the head comes the live node with the smallest key, and no
    /// node exactly when the map is empty. After a live node comes the live
    /// node with the smallest key that is greater than its own.
    pub proof fn lemma_after(self, a: usize)
        requires
            self.wf(),
            a == HEAD || self.names_live(a),
        ensures
            self.after(a) != NULL ==> self.names_live(self.after(a)) && self@.contains_pair(
                self.entry_at(self.after(a)).0,
                self.entry_at(self.after(a)).1,
            ),
            a == HEAD ==> (self.after(a) == NULL <==> self@.dom().len() == 0),
            a == HEAD && self.after(a) != NULL ==> forall|k: K|
                self@.dom().contains(k) ==> k == self.entry_at(self.after(a)).0 || lt(
                    self.entry_at(self.after(a)).0,
                    k,
                ),
            a != HEAD && self.after(a) != NULL ==> lt(
                self.entry_at(a).0,
                self.entry_at(self.after(a)).0,
            ),
            a != HEAD ==> forall|k: K|
                self@.dom().contains(k) && lt(self.entry_at(a).0, k) ==> self.after(a) != NULL
                    && !lt(k, self.entry_at(self.after(a)).0),
    {
        if a == HEAD {
            self.lemma_front(self.after(a));
        } else {
            self.lemma_follow(a, self.after(a));
            self.lemma_live_entries();
        }
    }

    /// A list without an entry that links no removed node either is empty
    /// all through: the arena holds no node at all, and the head links
    /// nothing.
    pub proof fn lemma_empty(self)
        requires
            self.wf(),
            self.spec_len() == 0,
            self.stale() == 0,
        ensures
            self@ == Map::<K, V>::empty(),
            forall|a: usize| #[trigger] self.is_tower(a) ==> a == HEAD,
            forall|l: int| 0 <= l < HEIGHT ==> (#[trigger] self.link(HEAD, l)).target() == NULL,
    {
        self.lemma_len();
        vstd::set_lib::lemma_set_empty_equivalency_len(self.dead@);
        vstd::set_lib::lemma_set_empty_equivalency_len(self.index@.dom());
        assert(self@ =~= Map::<K, V>::empty());
        assert forall|s: int| !self.occupied(s) by {
            if self.occupied(s) {
                assert(self.complete(s));
                assert(self.node_ok(s));
                if self.live(s) {
                    assert(self.index@.dom().contains(self.key_at(s)));
                } else {
                    assert(self.dead@.contains(s));
                }
            }
        }
        assert forall|l: int| 0 <= l < HEIGHT implies (#[trigger] self.link(HEAD, l)).target()
            == NULL by {
            assert(self.chain_ok(l));
            if self.chain(l).len() > 0 {
                assert(self.occupied(self.chain(l)[0]));
            }
        }
    }

    /// The arena keeps no node that no level links: whatever is in it can be
    /// reached from the head.
    pub proof fn lemma_no_stray(self, a: usize) -> (l: int)
        requires
            self.wf(),
            self.is_tower(a),
            a != HEAD,
        ensures
            0 <= l < HEIGHT,
            self.linked_at(a, l),
    {
        assert(self.occupied(slot_of(a)));
        assert(self.node_ok(slot_of(a)));
        assert(self.complete(slot_of(a)));
        lemma_count_witness(self.chains@, slot_of(a), HEIGHT as int)
    }

    /// A node is frozen exactly when it is removed: every link of a live
    /// node and of the head is untagged, every link of a removed node holds
    /// the tag 1.
    pub proof fn lemma_frozen(self, a: usize, l: int)
        requires
            self.wf(),
            self.is_tower(a),
            0 <= l < self.tower_height(a),
        ensures
            self.link(a, l).mark() == if a == HEAD || self.names_live(a) {
                0usize
            } else {
                1usize
            },
    {
        if a != HEAD {
            assert(self.occupied(slot_of(a)));
            assert(self.node_ok(slot_of(a)));
        } else {
            assert(self.chain_ok(l));
        }
    }

    /// The links of a level follow the order of the keys: a live node that
    /// a live node links to has the greater key.
    pub proof fn lemma_ascending(self, a: usize, l: int)
        requires
            self.wf(),
            self.names_live(a),
            0 <= l < self.tower_height(a),
            self.names_live(self.link(a, l).target()),
        ensures
            lt(self.entry_at(a).0, self.entry_at(self.link(a, l).target()).0),
    {
        self.lemma_next(a, l);
        assert(self.chain_ok(l));
        let c = self.chain(l);
        let i = self.rank(a, l);
        lemma_slot(a);
        assert(self.link(a, l).target() != NULL);
        assert(self.live(c[i - 1]) && self.live(c[i]));
    }

    /// No tower is higher than the largest height, and the largest height
    /// seen so far bounds every node.
    pub proof fn lemma_heights(self, a: usize)
        requires
            self.wf(),
            self.is_tower(a),
        ensures
            1 <= self.tower_height(a) <= HEIGHT,
            1 <= self.max_height() <= HEIGHT,
            a != HEAD ==> self.tower_height(a) <= self.max_height(),
            a == HEAD ==> self.tower_height(a) == HEIGHT,
            self.head_links().len() == HEIGHT,
    {
        if a != HEAD {
            assert(self.occupied(slot_of(a)));
            assert(self.node_ok(slot_of(a)));
        }
    }
}

} // verus!
