//! Insertion: drawing a height, taking a slot, and linking level by level.

use vstd::prelude::*;
use crate::height::draw_height;
use crate::height::drawn_height;
use crate::height::randomize;
use crate::height::xorshift;
use crate::list::SkipList;
use crate::list::addr_of;
use crate::list::clamp_height;
use crate::list::lemma_addr;
use crate::list::lemma_count_bound;
use crate::list::lemma_count_less;
use crate::list::lemma_count_positive;
use crate::list::lemma_count_prefix;
use crate::list::lemma_count_same;
use crate::list::lemma_slot;
use crate::list::link_at;
use crate::list::slot_of;
use crate::list::SearchResult;
use crate::list::CAPACITY;
use crate::list::HEAD;
use crate::node::Node;
use crate::node::HEIGHT;
use crate::order::less;
use crate::order::lt;
use crate::tagged::NULL;

verus! {

impl<K: Ord, V> SkipList<K, V> {
    /// What one linking step does to the list.
    spec fn link_step(self, post: Self, node: usize, pred: usize, succ: usize, l: int) -> bool {
        let p = slot_of(node);
        let ps = slot_of(pred);
        let i = self.rank(pred, l);
        &&& self.inv_with(p, l)
        &&& node != HEAD
        &&& self.is_tower(node)
        &&& 0 <= l < self.node(p).levels.len()
        &&& self.is_tower(pred)
        &&& pred != node
        &&& l < self.tower_height(pred)
        &&& self.link(pred, l).target() == succ
        &&& self.link(pred, l).mark() == 0
        &&& pred != HEAD ==> lt(self.key_at(ps), self.key_at(p))
        &&& succ != NULL ==> self.live(slot_of(succ)) && lt(
            self.key_at(p),
            self.key_at(slot_of(succ)),
        )
        &&& post.chains@ == self.chains@.update(l, self.chain(l).insert(i, p))
        &&& post.index@ == self.index@
        &&& post.free@ == self.free@
        &&& post.state == self.state
        &&& post.dead@ == self.dead@
        &&& post.nodes.len() == self.nodes.len()
        &&& post.head.len() == self.head.len()
        &&& post.link(pred, l).target() == node
        &&& post.link(pred, l).mark() == 0
        &&& pred == HEAD ==> forall|j: int|
            0 <= j < HEIGHT && j != l ==> post.head[j] == self.head[j]
        &&& pred != HEAD ==> post.head == self.head
        &&& forall|s: int|
            0 <= s < self.nodes.len() && s != p && (pred == HEAD || s != ps) ==> post.nodes[s]
                == self.nodes[s]
        &&& pred != HEAD ==> {
            &&& post.occupied(ps)
            &&& post.node(ps).data == self.node(ps).data
            &&& post.node(ps).height_and_removed == self.node(ps).height_and_removed
            &&& post.node(ps).refs == self.node(ps).refs
            &&& post.node(ps).levels.len() == self.node(ps).levels.len()
            &&& forall|j: int|
                0 <= j < self.node(ps).levels.len() && j != l ==> post.node(ps).levels[j]
                    == self.node(ps).levels[j]
        }
        &&& post.occupied(p)
        &&& post.node(p).data == self.node(p).data
        &&& post.node(p).height_and_removed == self.node(p).height_and_removed
        &&& post.node(p).refs == self.node(p).refs + 1
        &&& post.node(p).levels.len() == self.node(p).levels.len()
        &&& post.node(p).levels[l].target() == succ
        &&& post.node(p).levels[l].mark() == 0
        &&& forall|j: int|
            0 <= j < self.node(p).levels.len() && j != l ==> post.node(p).levels[j] == self.node(
                p,
            ).levels[j]
    }

    /// Where a linking step takes place, and what the chain of its level
    /// holds afterwards.
    #[verifier::spinoff_prover]
    #[verifier::rlimit(50)]
    proof fn lemma_link_chain(self, post: Self, node: usize, pred: usize, succ: usize, l: int)
        requires
            self.link_step(post, node, pred, succ, l),
        ensures
            ({
                let i = self.rank(pred, l);
                let c = self.chain(l);
                let d = c.insert(i, slot_of(node));
                let p = slot_of(node);
                &&& 0 <= i <= c.len()
                &&& succ == link_at(c, i)
                &&& succ != NULL ==> c[i] == slot_of(succ)
                &&& pred != HEAD ==> i >= 1 && c[i - 1] == slot_of(pred) && slot_of(pred) != p
                    && self.live(slot_of(pred))
                &&& self.live(p)
                &&& 0 <= p < CAPACITY
                &&& addr_of(p) == node
                &&& !c.contains(p)
                &&& post.chain(l) == d
                &&& d.len() == c.len() + 1
                &&& d[i] == p
                &&& forall|m: int| 0 <= m < i ==> d[m] == c[m]
                &&& forall|m: int| i < m < d.len() ==> d[m] == c[m - 1]
                &&& forall|s: int| s != p ==> (d.contains(s) <==> c.contains(s))
                &&& d.contains(p)
            }),
    {
        let p = slot_of(node);
        let i = self.rank(pred, l);
        let c = self.chain(l);
        let d = c.insert(i, p);
        self.lemma_successor(pred, l, p, l);
        lemma_slot(node);
        assert(self.chain_ok(l));
        assert(self.occupied(p));
        if succ != NULL {
            lemma_addr(c[i]);
        }
        c.insert_ensures(i, p);
        assert(d[i] == p);
        assert forall|s: int| s != p implies (d.contains(s) <==> c.contains(s)) by {
            if c.contains(s) {
                let m = c.index_of(s);
                if m < i {
                    assert(d[m] == s);
                } else {
                    assert(d[m + 1] == s);
                }
            }
            if d.contains(s) {
                let m = d.index_of(s);
                if m < i {
                    assert(c[m] == s);
                } else {
                    assert(c[m - 1] == s);
                }
            }
        }
    }

    /// A linking step keeps the live nodes, their entries and everything
    /// away from its level.
    #[verifier::spinoff_prover]
    #[verifier::rlimit(50)]
    proof fn lemma_link_frame(self, post: Self, node: usize, pred: usize, succ: usize, l: int)
        requires
            self.link_step(post, node, pred, succ, l),
        ensures
            self.same_except(post, l),
            post@ == self@,
            forall|s: int| post.occupied(s) <==> self.occupied(s),
            forall|s: int|
                self.occupied(s) ==> post.node(s).data == self.node(s).data && post.node(
                    s,
                ).height_and_removed == self.node(s).height_and_removed && post.node(
                    s,
                ).levels.len() == self.node(s).levels.len(),
            forall|s: int|
                self.occupied(s) && s != slot_of(node) ==> post.node(s).refs == self.node(s).refs,
            forall|s: int, j: int|
                self.occupied(s) && 0 <= j < self.node(s).levels.len() && (j != l || (s != slot_of(
                    node,
                ) && (pred == HEAD || s != slot_of(pred)))) ==> post.node(s).levels[j] == self.node(
                    s,
                ).levels[j],
    {
        let p = slot_of(node);
        let ps = slot_of(pred);
        self.lemma_link_chain(post, node, pred, succ, l);
        assert forall|s: int| post.occupied(s) <==> self.occupied(s) by {
            if 0 <= s < self.nodes.len() && s != p && !(pred != HEAD && s == ps) {
                assert(post.nodes[s] == self.nodes[s]);
            }
        }
        assert forall|s: int| self.occupied(s) implies post.node(s).data == self.node(s).data
            && post.node(s).height_and_removed == self.node(s).height_and_removed && post.node(
            s,
        ).levels.len() == self.node(s).levels.len() by {
            if s != p && !(pred != HEAD && s == ps) {
                assert(post.nodes[s] == self.nodes[s]);
            }
        }
        assert forall|s: int| self.occupied(s) && s != p implies post.node(s).refs == self.node(
            s,
        ).refs by {
            if !(pred != HEAD && s == ps) {
                assert(post.nodes[s] == self.nodes[s]);
            }
        }
        assert forall|s: int, j: int|
            self.occupied(s) && 0 <= j < self.node(s).levels.len() && (j != l || (s != p && (pred
                == HEAD || s != ps))) implies post.node(s).levels[j] == self.node(s).levels[j] by {
            if s != p && !(pred != HEAD && s == ps) {
                assert(post.nodes[s] == self.nodes[s]);
            }
        }
        assert forall|s: int| #[trigger] self.live(s) <==> post.live(s) by {
            if self.occupied(s) {
                assert(post.node(s).height_and_removed == self.node(s).height_and_removed);
            }
        }
        assert forall|j: int| 0 <= j < HEIGHT && j != l implies #[trigger] post.chain(j)
            == self.chain(j) && post.head[j] == self.head[j] by {}
        assert(post@ =~= self@) by {
            assert forall|k: K| self.index@.dom().contains(k) implies post.val_at(self.index@[k])
                == self.val_at(self.index@[k]) by {
                assert(self.live(self.index@[k]));
            }
        }
    }

    /// A linking step leaves the chain of its level in order.
    #[verifier::spinoff_prover]
    #[verifier::rlimit(50)]
    proof fn lemma_link_level_ok(self, post: Self, node: usize, pred: usize, succ: usize, l: int)
        requires
            self.link_step(post, node, pred, succ, l),
        ensures
            post.chain_ok(l),
    {
        let p = slot_of(node);
        let ps = slot_of(pred);
        let i = self.rank(pred, l);
        let c = self.chain(l);
        let d = c.insert(i, p);
        self.lemma_link_chain(post, node, pred, succ, l);
        self.lemma_link_frame(post, node, pred, succ, l);
        assert(self.chain_ok(l));
        assert(post.head[l].target() == link_at(d, 0));
        assert(post.head[l].mark() == 0);
        assert forall|a: int, b: int| 0 <= a < b < d.len() implies d[a] != d[b] by {
            if a != i && b != i {
                let a0 = if a < i {
                    a
                } else {
                    a - 1
                };
                let b0 = if b < i {
                    b
                } else {
                    b - 1
                };
                assert(c[a0] == d[a] && c[b0] == d[b]);
            } else if a == i {
                assert(c[b - 1] == d[b]);
                assert(c.contains(d[b]));
            } else {
                assert(c[a] == d[a]);
                assert(c.contains(d[a]));
            }
        }
        assert forall|m: int| 0 <= m < d.len() implies {
            &&& post.occupied(#[trigger] d[m])
            &&& l < post.node(d[m]).levels.len()
            &&& post.node(d[m]).levels[l].target() == link_at(d, m + 1)
        } by {
            let e = d[m];
            if m == i {
            } else {
                let m0 = if m < i {
                    m
                } else {
                    m - 1
                };
                assert(c[m0] == e);
                assert(c.contains(e));
                assert(e != p);
                assert(self.occupied(e));
                assert(self.node(e).levels[l].target() == link_at(c, m0 + 1));
                if pred != HEAD && e == ps {
                    assert(m0 == i - 1);
                } else {
                    assert(post.node(e).levels[l] == self.node(e).levels[l]);
                    if m0 + 1 == i {
                        assert(pred != HEAD ==> c[i - 1] == ps);
                        assert(pred == HEAD);
                        assert(false);
                    }
                }
            }
        }
        assert forall|a: int, b: int|
            0 <= a < b < d.len() && post.live(d[a]) && post.live(d[b]) implies lt(
            post.key_at(d[a]),
            post.key_at(d[b]),
        ) by {
            let k = self.key_at(p);
            if a != i && b != i {
                let a0 = if a < i {
                    a
                } else {
                    a - 1
                };
                let b0 = if b < i {
                    b
                } else {
                    b - 1
                };
                assert(c[a0] == d[a] && c[b0] == d[b]);
                assert(self.live(c[a0]) && self.live(c[b0]));
            } else if a == i {
                // the node that follows the new one is the successor
                assert(c[b - 1] == d[b]);
                assert(self.live(c[b - 1]));
                assert(succ != NULL);
                assert(self.live(c[i]));
                if b - 1 > i {
                    crate::order::lemma_lt_transitive(k, self.key_at(c[i]), self.key_at(c[b - 1]));
                }
            } else {
                assert(c[a] == d[a]);
                assert(self.live(c[a]));
                assert(pred != HEAD);
                if a < i - 1 {
                    crate::order::lemma_lt_transitive(self.key_at(c[a]), self.key_at(c[i - 1]), k);
                }
            }
        }
    }

    /// A linking step leaves the chains of the other levels in order.
    #[verifier::spinoff_prover]
    #[verifier::rlimit(50)]
    proof fn lemma_link_other_ok(
        self,
        post: Self,
        node: usize,
        pred: usize,
        succ: usize,
        l: int,
        j: int,
    )
        requires
            self.link_step(post, node, pred, succ, l),
            0 <= j < HEIGHT,
            j != l,
        ensures
            post.chain_ok(j),
    {
        let cj = self.chain(j);
        self.lemma_link_chain(post, node, pred, succ, l);
        self.lemma_link_frame(post, node, pred, succ, l);
        assert(self.chain_ok(j));
        assert(post.chain(j) == cj);
        assert forall|m: int| 0 <= m < cj.len() implies {
            &&& post.occupied(#[trigger] cj[m])
            &&& j < post.node(cj[m]).levels.len()
            &&& post.node(cj[m]).levels[j].target() == link_at(cj, m + 1)
        } by {
            let e = cj[m];
            assert(self.occupied(e));
            assert(post.node(e).levels[j] == self.node(e).levels[j]);
        }
        assert forall|a: int, b: int|
            0 <= a < b < cj.len() && post.live(cj[a]) && post.live(cj[b]) implies lt(
            post.key_at(cj[a]),
            post.key_at(cj[b]),
        ) by {
            assert(self.live(cj[a]) && self.live(cj[b]));
        }
    }

    /// A linking step leaves every node in order, and every node but the
    /// one being linked in its settled state.
    #[verifier::spinoff_prover]
    #[verifier::rlimit(50)]
    proof fn lemma_link_node_ok(
        self,
        post: Self,
        node: usize,
        pred: usize,
        succ: usize,
        l: int,
        s: int,
    )
        requires
            self.link_step(post, node, pred, succ, l),
            post.occupied(s),
        ensures
            post.node_ok(s),
            s != slot_of(node) ==> post.complete(s),
    {
        let p = slot_of(node);
        let ps = slot_of(pred);
        self.lemma_link_chain(post, node, pred, succ, l);
        self.lemma_link_frame(post, node, pred, succ, l);
        assert(self.occupied(s));
        assert(self.node_ok(s));
        assert forall|j: int| 0 <= j < post.node(s).levels.len() implies (#[trigger] post.node(
            s,
        ).levels[j]).mark() == if post.node(s).removed_spec() {
            1usize
        } else {
            0usize
        } by {
            if j == l && (s == p || (pred != HEAD && s == ps)) {
            } else {
                assert(post.node(s).levels[j] == self.node(s).levels[j]);
            }
        }
        if s == p {
            lemma_count_less(post.chains@, self.chains@, p, HEIGHT as int, l);
        } else {
            assert(self.complete(s));
            lemma_count_same(self.chains@, post.chains@, s, HEIGHT as int);
            if post.live(s) {
                assert(self.live(s));
                assert forall|j: int| 0 <= j < post.node(s).levels.len() implies (
                #[trigger] post.chain(j)).contains(s) by {
                    assert(self.chain(j).contains(s));
                }
            }
        }
    }

    /// A linking step keeps the invariant of a list with a node that is
    /// being linked, and takes that node one level further.
    #[verifier::spinoff_prover]
    #[verifier::rlimit(50)]
    proof fn lemma_linked(self, post: Self, node: usize, pred: usize, succ: usize, l: int)
        requires
            self.link_step(post, node, pred, succ, l),
        ensures
            post.inv_with(slot_of(node), l + 1),
            post@ == self@,
            self.same_except(post, l),
    {
        let p = slot_of(node);
        self.lemma_link_chain(post, node, pred, succ, l);
        self.lemma_link_frame(post, node, pred, succ, l);
        self.lemma_link_level_ok(post, node, pred, succ, l);
        assert forall|j: int| 0 <= j < HEIGHT implies #[trigger] post.chain_ok(j) by {
            if j != l {
                self.lemma_link_other_ok(post, node, pred, succ, l, j);
            }
        }
        assert forall|s: int| #[trigger] post.occupied(s) implies post.node_ok(s) && (s != p
            ==> post.complete(s)) by {
            self.lemma_link_node_ok(post, node, pred, succ, l, s);
        }
        assert(post.index_ok()) by {
            assert forall|k: K| #[trigger] post.index@.dom().contains(k) implies post.live(
                post.index@[k],
            ) && post.key_at(post.index@[k]) == k by {
                assert(self.live(self.index@[k]));
            }
        }
        assert(post.free_ok()) by {
            assert forall|a: int| 0 <= a < post.free.len() implies (#[trigger] post.free[a])
                < post.nodes.len() && post.nodes[post.free[a] as int] is None by {
                let f = self.free[a] as int;
                assert(self.nodes[f] is None);
                assert(post.occupied(f) <==> self.occupied(f));
            }
        }
        assert forall|s: int| post.dead@.contains(s) <==> #[trigger] post.occupied(s) && post.node(
            s,
        ).removed_spec() by {
            assert(self.dead@.contains(s) <==> self.occupied(s) && self.node(s).removed_spec());
            assert(post.occupied(s) <==> self.occupied(s));
        }
        assert(post.pending_ok(p, l + 1)) by {
            assert(self.pending_ok(p, l));
            assert forall|j: int| 0 <= j < HEIGHT implies ((#[trigger] post.chain(j)).contains(p)
                <==> j < l + 1) by {
                assert(self.chain(j).contains(p) <==> j < l);
            }
        }
    }

    /// Links `node` at `level` between `pred` and the node `succ` that
    /// follows `pred` there: points the node's link at `succ`, counts the
    /// level for the node, and swings the link of `pred` to the node.
    #[verifier::spinoff_prover]
    #[verifier::rlimit(50)]
    fn link_level(&mut self, node: usize, pred: usize, succ: usize, level: usize) -> (r: Result<
        (),
        (),
    >)
        requires
            old(self).inv_with(slot_of(node), level as int),
            node != HEAD,
            old(self).is_tower(node),
            level < old(self).tower_height(node),
            old(self).is_tower(pred),
            pred != node,
            level < old(self).tower_height(pred),
            old(self).link(pred, level as int).target() == succ,
            old(self).link(pred, level as int).mark() == 0,
            pred != HEAD ==> lt(old(self).key_at(slot_of(pred)), old(self).key_at(slot_of(node))),
            succ != NULL ==> old(self).live(slot_of(succ)) && lt(
                old(self).key_at(slot_of(node)),
                old(self).key_at(slot_of(succ)),
            ),
        ensures
            r is Ok,
            final(self).inv_with(slot_of(node), level + 1),
            final(self).link(pred, level as int).target() == node,
            final(self).link(pred, level as int).mark() == 0,
            final(self).link(node, level as int).target() == succ,
            final(self).link(node, level as int).mark() == 0,
            final(self)@ == old(self)@,
            old(self).same_except(*final(self), level as int),
            final(self).free@ == old(self).free@,
            final(self).state == old(self).state,
            final(self).dead@ == old(self).dead@,
    {
        let ghost pre = *self;
        let ghost lv = level as int;
        let ghost p = slot_of(node);
        proof {
            pre.lemma_successor(pred, lv, p, lv);
            pre.link(pred, lv).lemma_parts();
            lemma_slot(node);
            assert(pre.occupied(p));
            assert(pre.node_ok(p));
            lemma_count_bound(pre.chains@, p, HEIGHT as int);
        }
        let slot = node / 8 - 2;
        let mut counted = true;
        match &mut self.nodes[slot] {
            Some(n) => {
                n.levels[level].store_ptr(succ);
                if level == 0 {
                    n.add_ref();
                } else {
                    counted = n.try_add_ref().is_ok();
                }
            },
            None => {},
        }
        proof {
            assert(pre.pending_ok(p, lv));
            if lv > 0 {
                assert(pre.chain(0).contains(p));
                lemma_count_positive(pre.chains@, p, HEIGHT as int, 0);
            }
            assert(counted);
        }
        if !counted {
            return Err(());
        }
        let swung = self.swing(pred, level, succ, node);
        self.chains = Ghost(self.chains@.update(lv, pre.chain(lv).insert(pre.rank(pred, lv), p)));
        proof {
            pre.lemma_linked(*self, node, pred, succ, lv);
        }
        Ok(())
    }

    /// Draws the height of the next node.
    ///
    /// The pseudo-random state advances by one step and gives a height
    /// between 1 and the largest; from 4 upwards the height is lowered while
    /// the head has no successor two levels below it. The largest height
    /// seen so far grows to the result where it was smaller. Nothing else
    /// changes.
    pub fn gen_height(&mut self) -> (r: usize)
        requires
            old(self).wf(),
        ensures
            final(self).wf(),
            final(self)@ == old(self)@,
            final(self).spec_len() == old(self).spec_len(),
            final(self).stale() == old(self).stale(),
            final(self).head_links() == old(self).head_links(),
            final(self).seed() == xorshift(old(self).seed()),
            r == clamp_height(drawn_height(final(self).seed()) as int, old(self).head_links()),
            1 <= r <= HEIGHT,
            final(self).max_height() == if r > old(self).max_height() {
                r
            } else {
                old(self).max_height()
            },
    {
        self.draw()
    }

    /// The drawing behind `gen_height`.
    #[verifier::spinoff_prover]
    #[verifier::rlimit(50)]
    fn draw(&mut self) -> (r: usize)
        requires
            old(self).wf(),
        ensures
            final(self).wf(),
            final(self)@ == old(self)@,
            old(self).same_nodes(*final(self)),
            final(self).nodes@ == old(self).nodes@,
            final(self).free@ == old(self).free@,
            final(self).state.len == old(self).state.len,
            final(self).dead@ == old(self).dead@,
            final(self).state.seed == xorshift(old(self).state.seed),
            r == clamp_height(drawn_height(final(self).state.seed) as int, old(self).head@),
            1 <= r <= HEIGHT,
            final(self).state.max_height == if r > old(self).state.max_height {
                r
            } else {
                old(self).state.max_height
            },
    {
        let seed = randomize(self.state.seed);
        self.state.seed = seed;
        let mut height = draw_height(seed);
        while height >= 4 && self.head[height - 2].load_ptr() == NULL
            invariant
                1 <= height <= HEIGHT,
                self.head.len() == HEIGHT,
                clamp_height(height as int, self.head@) == clamp_height(
                    drawn_height(seed) as int,
                    self.head@,
                ),
            decreases height,
        {
            height -= 1;
        }
        if height > self.state.max_height {
            self.state.max_height = height;
        }
        proof {
            let pre = *old(self);
            assert forall|l: int| 0 <= l < HEIGHT implies #[trigger] self.chain_ok(l) by {
                assert(pre.chain_ok(l));
            }
            assert forall|s: int| #[trigger] self.occupied(s) implies self.node_ok(s)
                && self.complete(s) by {
                assert(pre.occupied(s));
                assert(pre.node_ok(s));
                assert(pre.complete(s));
                assert(self.node(s) == pre.node(s));
                if self.live(s) {
                    assert forall|l: int| 0 <= l < self.node(s).levels.len() implies (
                    #[trigger] self.chain(l)).contains(s) by {
                        assert(pre.chain(l).contains(s));
                    }
                }
            }
            assert(self.index_ok()) by {
                assert(pre.index_ok());
                assert forall|k: K| #[trigger] self.index@.dom().contains(k) implies self.live(
                    self.index@[k],
                ) && self.key_at(self.index@[k]) == k by {
                    assert(pre.live(pre.index@[k]));
                }
            }
            assert(self.free_ok()) by {
                assert(pre.free_ok());
            }
            assert forall|s: int| self.dead@.contains(s) <==> #[trigger] self.occupied(s)
                && self.node(s).removed_spec() by {
                assert(pre.occupied(s) <==> self.occupied(s));
            }
            assert(self@ =~= pre@);
        }
        height
    }

    /// Puts a fresh node in a vacant slot of the arena, a retired one where
    /// there is any, and returns its address.
    #[verifier::spinoff_prover]
    #[verifier::rlimit(50)]
    fn alloc_node(&mut self, node: Node<K, V>) -> (r: usize)
        requires
            old(self).wf(),
            old(self).state.len + old(self).dead@.len() < CAPACITY,
            node.data is Some,
            !old(self).index@.dom().contains(node.data->Some_0.0),
            !node.removed_spec(),
            node.refs == 0,
            1 <= node.height_spec() <= old(self).state.max_height,
            node.levels.len() == node.height_spec(),
            forall|l: int| 0 <= l < node.levels.len() ==> (#[trigger] node.levels[l]).mark() == 0,
        ensures
            final(self).inv_with(slot_of(r), 0),
            final(self).counts_ok(1, 0),
            final(self)@ == old(self)@,
            old(self).same_nodes(*final(self)),
            r != HEAD,
            final(self).is_tower(r),
            final(self).node(slot_of(r)) == node,
            final(self).state == old(self).state,
    {
        let ghost pre = *self;
        let slot = match self.free.pop() {
            Some(slot) => {
                proof {
                    assert(pre.free_ok());
                    assert(pre.free[pre.free.len() - 1] == slot);
                }
                self.nodes[slot] = Some(node);
                slot
            },
            None => {
                self.nodes.push(Some(node));
                self.nodes.len() - 1
            },
        };
        let ghost p = slot as int;
        proof {
            lemma_addr(p);
            assert(!pre.occupied(p));
            assert forall|s: int| #[trigger] pre.occupied(s) implies self.nodes[s]
                == pre.nodes[s] by {}
            assert forall|s: int| self.occupied(s) <==> pre.occupied(s) || s == p by {}
            assert forall|l: int| 0 <= l < HEIGHT implies !(#[trigger] self.chains@[l]).contains(
                p,
            ) by {
                assert(pre.chain_ok(l));
                let c = pre.chain(l);
                if c.contains(p) {
                    let m = c.index_of(p);
                    assert(pre.occupied(c[m]));
                }
            }
            assert forall|l: int| 0 <= l < HEIGHT implies #[trigger] self.chain_ok(l) by {
                assert(pre.chain_ok(l));
                let c = pre.chain(l);
                assert forall|m: int| 0 <= m < c.len() implies {
                    &&& self.occupied(#[trigger] c[m])
                    &&& l < self.node(c[m]).levels.len()
                    &&& self.node(c[m]).levels[l].target() == link_at(c, m + 1)
                } by {
                    assert(pre.occupied(c[m]));
                }
                assert forall|a: int, b: int|
                    0 <= a < b < c.len() && self.live(c[a]) && self.live(c[b]) implies lt(
                    self.key_at(c[a]),
                    self.key_at(c[b]),
                ) by {
                    assert(pre.occupied(c[a]) && pre.occupied(c[b]));
                    assert(pre.live(c[a]) && pre.live(c[b]));
                }
            }
            assert forall|s: int| #[trigger] self.occupied(s) implies self.node_ok(s) && (s != p
                ==> self.complete(s)) by {
                if s == p {
                    lemma_count_prefix(self.chains@, p, HEIGHT as int, 0);
                    assert(self.node(p) == node);
                } else {
                    assert(pre.occupied(s));
                    assert(pre.node_ok(s));
                    assert(pre.complete(s));
                    assert(self.node(s) == pre.node(s));
                    if self.live(s) {
                        assert forall|l: int| 0 <= l < self.node(s).levels.len() implies (
                        #[trigger] self.chain(l)).contains(s) by {
                            assert(pre.chain(l).contains(s));
                        }
                    }
                }
            }
            assert(self.index_ok()) by {
                assert(pre.index_ok());
                assert forall|k: K| #[trigger] self.index@.dom().contains(k) implies self.live(
                    self.index@[k],
                ) && self.key_at(self.index@[k]) == k by {
                    assert(pre.live(pre.index@[k]));
                    assert(pre.occupied(pre.index@[k]));
                }
            }
            assert(self.free_ok()) by {
                assert(pre.free_ok());
                assert forall|a: int| 0 <= a < self.free.len() implies (#[trigger] self.free[a])
                    < self.nodes.len() && self.nodes[self.free[a] as int] is None by {
                    assert(self.free[a] == pre.free[a]);
                    assert(pre.nodes[pre.free[a] as int] is None);
                }
            }
            assert forall|s: int| self.dead@.contains(s) <==> #[trigger] self.occupied(s)
                && self.node(s).removed_spec() by {
                assert(pre.dead@.contains(s) <==> pre.occupied(s) && pre.node(s).removed_spec());
            }
            assert(self.pending_ok(p, 0)) by {
                assert forall|l: int| 0 <= l < HEIGHT implies ((#[trigger] self.chain(l)).contains(
                    p,
                ) <==> l < 0) by {
                    assert(!self.chains@[l].contains(p));
                }
                assert(self.node(p) == node);
                assert(self.live(p));
            }
            assert(self.shape()) by {
                assert(pre.shape());
                assert(pre.counts_ok(0, 0));
                assert(self.nodes.len() <= CAPACITY);
            }
            assert(self@ =~= pre@) by {
                assert(pre.index_ok());
                assert forall|k: K| pre.index@.dom().contains(k) implies self.val_at(pre.index@[k])
                    == pre.val_at(pre.index@[k]) by {
                    assert(pre.live(pre.index@[k]));
                    assert(pre.occupied(pre.index@[k]));
                }
            }
        }
        (slot + 2) * 8
    }

    /// Links a fresh node into the chains from level `start` up to its
    /// height, one level at a time from the bottom, each between the
    /// predecessor and the successor that a search for its key found.
    ///
    /// A level is given up where the successor is not after the node's key
    /// or where the predecessor's link has changed, and the result is then
    /// that level. With the outcome of a search on the list as it stands
    /// neither happens, and every level is linked: the untagged link of the
    /// predecessor then holds the node, and the untagged link of the node
    /// holds the successor.
    #[verifier::spinoff_prover]
    #[verifier::rlimit(50)]
    fn link_nodes(&mut self, node: usize, prev: &Vec<(usize, usize)>, start: usize) -> (r: Result<
        (),
        usize,
    >)
        requires
            old(self).inv_with(slot_of(node), start as int),
            node != HEAD,
            old(self).is_tower(node),
            start <= old(self).tower_height(node),
            prev.len() == HEIGHT,
            forall|l: int|
                start <= l < old(self).tower_height(node) ==> old(self).bracket(
                    l,
                    (#[trigger] prev[l]).0,
                    prev[l].1,
                    old(self).key_at(slot_of(node)),
                ),
        ensures
            r is Ok,
            final(self).inv_with(slot_of(node), old(self).tower_height(node)),
            forall|l: int|
                start <= l < old(self).tower_height(node) ==> {
                    &&& final(self).link((#[trigger] prev[l]).0, l).target() == node
                    &&& final(self).link(prev[l].0, l).mark() == 0
                    &&& final(self).link(node, l).target() == prev[l].1
                    &&& final(self).link(node, l).mark() == 0
                    &&& prev[l].1 != NULL ==> final(self).names_live(prev[l].1) && lt(
                        old(self).key_at(slot_of(node)),
                        final(self).entry_at(prev[l].1).0,
                    )
                },
            final(self).node(slot_of(node)).refs == old(self).tower_height(node),
            final(self)@ == old(self)@,
            final(self).free@ == old(self).free@,
            final(self).state == old(self).state,
            final(self).dead@ == old(self).dead@,
            final(self).index@ == old(self).index@,
            final(self).nodes.len() == old(self).nodes.len(),
            final(self).is_tower(node),
            final(self).tower_height(node) == old(self).tower_height(node),
            final(self).node(slot_of(node)).data == old(self).node(slot_of(node)).data,
    {
        let ghost p = slot_of(node);
        let ghost key = self.key_at(p);
        proof {
            assert(self.occupied(p));
            assert(self.node_ok(p));
        }
        let height = self.height_at(node);
        let mut i = start;
        while i < height
            invariant
                start <= i <= height,
                height == self.tower_height(node),
                height == old(self).tower_height(node),
                height <= HEIGHT,
                self.inv_with(p, i as int),
                p == slot_of(node),
                node != HEAD,
                self.is_tower(node),
                self.key_at(p) == key,
                self.node(p).data == old(self).node(p).data,
                prev.len() == HEIGHT,
                forall|l: int|
                    i <= l < height ==> self.bracket(l, (#[trigger] prev[l]).0, prev[l].1, key),
                forall|l: int|
                    start <= l < i ==> {
                        &&& self.link((#[trigger] prev[l]).0, l).target() == node
                        &&& self.link(prev[l].0, l).mark() == 0
                        &&& self.link(node, l).target() == prev[l].1
                        &&& self.link(node, l).mark() == 0
                        &&& self.is_tower(prev[l].0)
                        &&& l < self.tower_height(prev[l].0)
                        &&& prev[l].0 != HEAD ==> self.live(slot_of(prev[l].0))
                        &&& prev[l].1 != NULL ==> self.names_live(prev[l].1) && lt(
                            key,
                            self.entry_at(prev[l].1).0,
                        )
                    },
                self@ == old(self)@,
                self.free@ == old(self).free@,
                self.state == old(self).state,
                self.dead@ == old(self).dead@,
                self.index@ == old(self).index@,
                self.nodes.len() == old(self).nodes.len(),
            ensures
                i == height,
            decreases height - i,
        {
            let (pred, succ) = prev[i];
            let ghost before = *self;
            proof {
                assert(self.bracket(i as int, prev[i as int].0, prev[i as int].1, key));
                assert(self.pending_ok(p, i as int));
                crate::order::lemma_lt_irreflexive(key);
                assert(pred != node);
                self.lemma_successor(pred, i as int, p, i as int);
                if succ != NULL {
                    let t = slot_of(succ);
                    assert(self.chain_ok(i as int));
                    lemma_addr(self.chain(i as int)[self.rank(pred, i as int)]);
                    lemma_slot(succ);
                    assert(self.chain(i as int).contains(t));
                    assert(t != p);
                    assert(self.occupied(t));
                    assert(self.complete(t));
                    assert(self.node_ok(t));
                    crate::order::lemma_trichotomy(key, self.key_at(t));
                }
            }
            if self.removed_at(node) {
                proof {
                    assert(false);
                }
                break ;
            }
            if succ != NULL && !less(self.key_ref(node), self.key_ref(succ)) {
                return Err(i);
            }
            if self.link_level(node, pred, succ, i).is_err() {
                return Err(i);
            }
            proof {
                assert(before.live(p));
                assert forall|l: int| i + 1 <= l < height implies self.bracket(
                    l,
                    (#[trigger] prev[l]).0,
                    prev[l].1,
                    key,
                ) by {
                    before.lemma_bracket_frame(*self, i as int, l, prev[l].0, prev[l].1, key);
                }
                assert forall|l: int| start <= l < i + 1 implies {
                    &&& self.link((#[trigger] prev[l]).0, l).target() == node
                    &&& self.link(prev[l].0, l).mark() == 0
                    &&& self.link(node, l).target() == prev[l].1
                    &&& self.link(node, l).mark() == 0
                    &&& self.is_tower(prev[l].0)
                    &&& l < self.tower_height(prev[l].0)
                    &&& prev[l].0 != HEAD ==> self.live(slot_of(prev[l].0))
                    &&& prev[l].1 != NULL ==> self.names_live(prev[l].1) && lt(
                        key,
                        self.entry_at(prev[l].1).0,
                    )
                } by {
                    let a = prev[l].0;
                    if prev[l].1 != NULL {
                        if l == i {
                            assert(before.bracket(l, a, prev[l].1, key));
                        }
                        assert(before.live(slot_of(prev[l].1)));
                    }
                    assert(before.same_except(*self, i as int));
                    assert(before.live(p));
                    if l < i {
                        assert(0 <= l < HEIGHT && l != i);
                        assert(self.chain(l) == before.chain(l));
                        assert(self.head[l] == before.head[l]);
                        assert(self.node(p).levels[l] == before.node(p).levels[l]);
                        if a != HEAD {
                            assert(before.live(slot_of(a)));
                            assert(self.node(slot_of(a)).levels[l] == before.node(
                                slot_of(a),
                            ).levels[l]);
                        }
                    } else {
                        assert(before.bracket(l, a, prev[l].1, key));
                        if a != HEAD {
                            assert(before.live(slot_of(a)));
                        }
                    }
                }
            }
            i += 1;
        }
        proof {
            assert(self.pending_ok(p, i as int));
            assert(self.occupied(p));
            assert(self.node_ok(p));
            assert forall|l: int| 0 <= l < HEIGHT implies ((#[trigger] self.chains@[l]).contains(p)
                <==> l < height) by {
                assert(self.chain(l).contains(p) <==> l < height);
            }
            lemma_count_prefix(self.chains@, p, HEIGHT as int, height as int);
        }
        Ok(())
    }

    /// Puts an entry whose key the map does not hold into a fresh node and
    /// links the node where a search for the key found its place.
    #[verifier::spinoff_prover]
    #[verifier::rlimit(50)]
    pub(super) fn link_fresh(&mut self, key: K, val: V, search: &SearchResult)
        requires
            old(self).wf(),
            old(self).spec_len() + old(self).stale() < CAPACITY,
            old(self).found(*search, key, false),
            !old(self)@.dom().contains(key),
        ensures
            final(self).wf(),
            final(self).seed() == xorshift(old(self).seed()),
            final(self).max_height() >= old(self).max_height(),
            final(self)@ == old(self)@.insert(key, val),
            final(self).stale() == old(self).stale(),
            final(self).spec_len() == old(self).spec_len() + 1,
            final(self).holder(key) is Some,
            final(self).tower_height(final(self).holder(key)->Some_0) == clamp_height(
                drawn_height(final(self).seed()) as int,
                old(self).head_links(),
            ),
    {
        let ghost mid = *self;
        proof {
            assert(mid@.dom().contains(key) <==> mid.index@.dom().contains(key));
        }
        let height = self.draw();
        let ghost drawn = *self;
        let node = self.alloc_node(Node::new(key, val, height));
        let ghost fresh = *self;
        let ghost p = slot_of(node);
        proof {
            assert forall|l: int| 0 <= l < fresh.tower_height(node) implies fresh.bracket(
                l,
                (#[trigger] search.prev[l]).0,
                search.prev[l].1,
                fresh.key_at(p),
            ) by {
                assert(mid.bracket(l, search.prev[l].0, search.prev[l].1, key));
                mid.lemma_bracket_same(drawn, l, search.prev[l].0, search.prev[l].1, key);
                drawn.lemma_bracket_same(fresh, l, search.prev[l].0, search.prev[l].1, key);
            }
        }
        let linked = self.link_nodes(node, &search.prev, 0);
        let ghost built = *self;
        self.index = Ghost(self.index@.insert(key, p));
        self.state.len = self.state.len + 1;
        proof {
            built.lemma_published(*self, p, key);
            assert(self@ =~= old(self)@.insert(key, val)) by {
                assert(built.val_at(p) == val);
                assert(self@ =~= built@.insert(key, val));
            }
            lemma_slot(node);
            assert(self.holder(key) == Some(node));
        }
    }

    /// Puts `val` in place of the value of the live node that `target`
    /// names and returns the value that was there.
    #[verifier::spinoff_prover]
    #[verifier::rlimit(50)]
    pub(super) fn swap_val(&mut self, target: usize, val: V) -> (r: V)
        requires
            old(self).wf(),
            old(self).names_live(target),
        ensures
            final(self).wf(),
            final(self).seed() == old(self).seed(),
            final(self).max_height() == old(self).max_height(),
            r == old(self).entry_at(target).1,
            final(self)@ == old(self)@.insert(old(self).entry_at(target).0, val),
            final(self).stale() == old(self).stale(),
            final(self).spec_len() == old(self).spec_len(),
            old(self).same_shape(*final(self)),
    {
        let ghost pre = *self;
        let ghost t = slot_of(target);
        proof {
            assert(pre.occupied(t));
            assert(pre.node_ok(t));
            assert(pre.complete(t));
        }
        let slot = target / 8 - 2;
        let ghost given = val;
        let mut val = val;
        match &mut self.nodes[slot] {
            Some(n) => match &mut n.data {
                Some(kv) => {
                    core::mem::swap(&mut kv.1, &mut val);
                },
                None => {},
            },
            None => {},
        }
        proof {
            let key = pre.key_at(t);
            assert(self.occupied(t));
            assert(self.key_at(t) == key);
            assert forall|s: int| 0 <= s < pre.nodes.len() && s != t implies self.nodes[s]
                == pre.nodes[s] by {}
            assert(pre.same_shape(*self));
            assert forall|l: int| 0 <= l < HEIGHT implies #[trigger] self.chain_ok(l) by {
                assert(pre.chain_ok(l));
                let c = pre.chain(l);
                assert forall|m: int| 0 <= m < c.len() implies {
                    &&& self.occupied(#[trigger] c[m])
                    &&& l < self.node(c[m]).levels.len()
                    &&& self.node(c[m]).levels[l].target() == link_at(c, m + 1)
                } by {
                    assert(pre.occupied(c[m]));
                }
                assert forall|a: int, b: int|
                    0 <= a < b < c.len() && self.live(c[a]) && self.live(c[b]) implies lt(
                    self.key_at(c[a]),
                    self.key_at(c[b]),
                ) by {
                    assert(pre.occupied(c[a]) && pre.occupied(c[b]));
                    assert(pre.live(c[a]) && pre.live(c[b]));
                }
            }
            assert forall|s: int| #[trigger] self.occupied(s) implies self.node_ok(s)
                && self.complete(s) by {
                assert(pre.occupied(s));
                assert(pre.node_ok(s));
                assert(pre.complete(s));
                if self.live(s) {
                    assert(pre.live(s));
                    assert forall|l: int| 0 <= l < self.node(s).levels.len() implies (
                    #[trigger] self.chain(l)).contains(s) by {
                        assert(pre.chain(l).contains(s));
                    }
                }
            }
            assert(self.index_ok()) by {
                assert(pre.index_ok());
                assert forall|k: K| #[trigger] self.index@.dom().contains(k) implies self.live(
                    self.index@[k],
                ) && self.key_at(self.index@[k]) == k by {
                    assert(pre.live(pre.index@[k]));
                }
            }
            assert(self.free_ok()) by {
                assert(pre.free_ok());
                assert forall|a: int| 0 <= a < self.free.len() implies (#[trigger] self.free[a])
                    < self.nodes.len() && self.nodes[self.free[a] as int] is None by {
                    assert(pre.nodes[pre.free[a] as int] is None);
                }
            }
            assert forall|s: int| self.dead@.contains(s) <==> #[trigger] self.occupied(s)
                && self.node(s).removed_spec() by {
                assert(pre.dead@.contains(s) <==> pre.occupied(s) && pre.node(s).removed_spec());
            }
            assert(self@ =~= pre@.insert(key, given)) by {
                assert(pre.index_ok());
                assert(self.val_at(t) == given);
                assert(pre.index@[key] == t);
                assert forall|k: K| pre.index@.dom().contains(k) && k != key implies self.val_at(
                    pre.index@[k],
                ) == pre.val_at(pre.index@[k]) by {
                    assert(pre.live(pre.index@[k]));
                    assert(pre.index@[k] != t);
                }
            }
        }
        val
    }

    /// A node that is linked at every level of its tower takes its place
    /// in the map.
    #[verifier::spinoff_prover]
    #[verifier::rlimit(50)]
    proof fn lemma_published(self, post: Self, p: int, key: K)
        requires
            self.inv_with(p, self.node(p).levels.len() as int),
            self.counts_ok(1, 0),
            p >= 0,
            key == self.key_at(p),
            post.head@ == self.head@,
            post.nodes@ == self.nodes@,
            post.free@ == self.free@,
            post.chains@ == self.chains@,
            post.dead@ == self.dead@,
            post.index@ == self.index@.insert(key, p),
            post.state.len == self.state.len + 1,
            post.state.max_height == self.state.max_height,
        ensures
            post.wf(),
            post@ == self@.insert(key, self.val_at(p)),
    {
        assert(self.pending_ok(p, self.node(p).levels.len() as int));
        assert forall|l: int| 0 <= l < HEIGHT implies #[trigger] post.chain_ok(l) by {
            assert(self.chain_ok(l));
        }
        assert forall|s: int| #[trigger] post.occupied(s) implies post.node_ok(s) && post.complete(
            s,
        ) by {
            assert(self.occupied(s));
            assert(self.node_ok(s));
            assert(post.node(s) == self.node(s));
            if s == p {
                assert(self.chain(0).contains(p));
                lemma_count_positive(self.chains@, p, HEIGHT as int, 0);
                assert forall|l: int| 0 <= l < post.node(s).levels.len() implies (
                #[trigger] post.chain(l)).contains(s) by {
                    assert(self.chain(l).contains(p) <==> l < self.node(p).levels.len());
                }
            } else {
                assert(self.complete(s));
                if post.live(s) {
                    assert(self.live(s));
                    assert forall|l: int| 0 <= l < post.node(s).levels.len() implies (
                    #[trigger] post.chain(l)).contains(s) by {
                        assert(self.chain(l).contains(s));
                    }
                }
            }
        }
        assert(post.index_ok()) by {
            assert(self.index_ok());
            assert forall|k: K| #[trigger] post.index@.dom().contains(k) implies post.live(
                post.index@[k],
            ) && post.key_at(post.index@[k]) == k by {
                if k != key {
                    assert(self.index@.dom().contains(k));
                    assert(self.live(self.index@[k]));
                    assert(post.node(self.index@[k]) == self.node(self.index@[k]));
                } else {
                    assert(post.node(p) == self.node(p));
                }
            }
        }
        assert(post.free_ok()) by {
            assert(self.free_ok());
        }
        assert forall|s: int| post.dead@.contains(s) <==> #[trigger] post.occupied(s) && post.node(
            s,
        ).removed_spec() by {
            assert(self.dead@.contains(s) <==> self.occupied(s) && self.node(s).removed_spec());
        }
        assert(post@ =~= self@.insert(key, self.val_at(p))) by {
            assert(self.index_ok());
            assert forall|k: K| post.index@.dom().contains(k) && k != key implies post.val_at(
                post.index@[k],
            ) == self.val_at(self.index@[k]) by {
                assert(post.node(self.index@[k]) == self.node(self.index@[k]));
            }
            assert(post.node(p) == self.node(p));
        }
    }
}

} // verus!
