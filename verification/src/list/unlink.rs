//! Removal: marking a node, and unlinking it level by level.

use vstd::prelude::*;
use crate::list::SkipList;
use crate::list::lemma_addr;
use crate::list::lemma_count_less;
use crate::list::lemma_count_prefix;
use crate::list::lemma_count_same;
use crate::list::lemma_count_two;
use crate::list::lemma_slot;
use crate::list::link_at;
use crate::list::slot_of;
use crate::list::SearchResult;
use crate::list::HEAD;
use crate::node::HEIGHT;
use crate::order::lt;

verus! {

impl<K: Ord, V> SkipList<K, V> {
    /// What one unlinking step does to the list.
    spec fn unlink_step(self, post: Self, prev: usize, curr: usize, l: int) -> bool {
        let cs = slot_of(curr);
        let ps = slot_of(prev);
        let i = self.rank(prev, l);
        let next = self.link(curr, l).target();
        &&& self.inv_with(-1, 0)
        &&& self.is_tower(prev)
        &&& 0 <= l < self.tower_height(prev)
        &&& self.link(prev, l).target() == curr
        &&& self.link(prev, l).mark() == 0
        &&& curr != HEAD
        &&& self.is_tower(curr)
        &&& l < self.tower_height(curr)
        &&& self.node(cs).removed_spec()
        &&& post.chains@ == self.chains@.update(l, self.chain(l).remove(i))
        &&& post.index@ == self.index@
        &&& post.nodes.len() == self.nodes.len()
        &&& post.head.len() == self.head.len()
        &&& post.state.max_height == self.state.max_height
        &&& post.state.seed == self.state.seed
        &&& post.link(prev, l).target() == next
        &&& post.link(prev, l).mark() == 0
        &&& prev == HEAD ==> forall|j: int|
            0 <= j < HEIGHT && j != l ==> post.head[j] == self.head[j]
        &&& prev != HEAD ==> post.head == self.head
        &&& forall|s: int|
            0 <= s < self.nodes.len() && s != cs && (prev == HEAD || s != ps) ==> post.nodes[s]
                == self.nodes[s]
        &&& prev != HEAD ==> {
            &&& post.occupied(ps)
            &&& post.node(ps).data == self.node(ps).data
            &&& post.node(ps).height_and_removed == self.node(ps).height_and_removed
            &&& post.node(ps).refs == self.node(ps).refs
            &&& post.node(ps).levels.len() == self.node(ps).levels.len()
            &&& forall|j: int|
                0 <= j < self.node(ps).levels.len() && j != l ==> post.node(ps).levels[j]
                    == self.node(ps).levels[j]
        }
        &&& if self.node(cs).refs == 1 {
            &&& post.nodes[cs] is None
            &&& post.free@ == self.free@.push(cs as usize)
            &&& post.state.len == self.state.len
            &&& post.dead@ == self.dead@.remove(cs)
        } else {
            &&& post.occupied(cs)
            &&& post.node(cs).data == self.node(cs).data
            &&& post.node(cs).height_and_removed == self.node(cs).height_and_removed
            &&& post.node(cs).levels == self.node(cs).levels
            &&& post.node(cs).refs == self.node(cs).refs - 1
            &&& post.free@ == self.free@
            &&& post.state.len == self.state.len
            &&& post.dead@ == self.dead@
        }
    }

    /// Where an unlinking step takes place, and what the chain of its level
    /// holds afterwards.
    #[verifier::spinoff_prover]
    #[verifier::rlimit(50)]
    proof fn lemma_unlink_chain(self, post: Self, prev: usize, curr: usize, l: int)
        requires
            self.unlink_step(post, prev, curr, l),
        ensures
            ({
                let i = self.rank(prev, l);
                let c = self.chain(l);
                let d = c.remove(i);
                let cs = slot_of(curr);
                &&& 0 <= i < c.len()
                &&& c[i] == cs
                &&& self.occupied(cs)
                &&& !self.live(cs)
                &&& self.node(cs).refs >= 1
                &&& self.dead@.contains(cs)
                &&& self.link(curr, l).target() == link_at(c, i + 1)
                &&& prev != HEAD ==> i >= 1 && c[i - 1] == slot_of(prev) && slot_of(prev) != cs
                    && self.live(slot_of(prev))
                &&& post.chain(l) == d
                &&& d.len() == c.len() - 1
                &&& forall|m: int| 0 <= m < i ==> d[m] == c[m]
                &&& forall|m: int| i <= m < d.len() ==> d[m] == c[m + 1]
                &&& forall|s: int| s != cs ==> (d.contains(s) <==> c.contains(s))
                &&& !d.contains(cs)
                &&& c.contains(cs)
            }),
    {
        let cs = slot_of(curr);
        let i = self.rank(prev, l);
        let c = self.chain(l);
        let d = c.remove(i);
        self.lemma_successor(prev, l, -1, 0);
        lemma_slot(curr);
        assert(self.chain_ok(l));
        assert(self.occupied(cs));
        assert(self.node_ok(cs));
        assert(self.complete(cs));
        assert(0 <= i < c.len() && c[i] == cs) by {
            assert(link_at(c, i) == curr);
            lemma_addr(c[i]);
        }
        c.remove_ensures(i);
        assert forall|s: int| s != cs implies (d.contains(s) <==> c.contains(s)) by {
            if c.contains(s) {
                let m = c.index_of(s);
                if m < i {
                    assert(d[m] == s);
                } else {
                    assert(d[m - 1] == s);
                }
            }
            if d.contains(s) {
                let m = d.index_of(s);
                if m < i {
                    assert(c[m] == s);
                } else {
                    assert(c[m + 1] == s);
                }
            }
        }
        if d.contains(cs) {
            let m = d.index_of(cs);
            if m < i {
                assert(c[m] == cs);
            } else {
                assert(c[m + 1] == cs);
            }
        }
    }

    /// An unlinking step keeps the live nodes, their entries and everything
    /// away from its level.
    #[verifier::spinoff_prover]
    #[verifier::rlimit(50)]
    proof fn lemma_unlink_frame(self, post: Self, prev: usize, curr: usize, l: int)
        requires
            self.unlink_step(post, prev, curr, l),
        ensures
            self.same_except(post, l),
            post@ == self@,
            forall|s: int| post.occupied(s) ==> self.occupied(s),
            forall|s: int|
                self.occupied(s) && s != slot_of(curr) ==> post.occupied(s) && post.node(s).data
                    == self.node(s).data && post.node(s).height_and_removed == self.node(
                    s,
                ).height_and_removed && post.node(s).refs == self.node(s).refs && post.node(
                    s,
                ).levels.len() == self.node(s).levels.len(),
            forall|s: int, j: int|
                self.occupied(s) && 0 <= j < self.node(s).levels.len() && s != slot_of(curr) && (j
                    != l || prev == HEAD || s != slot_of(prev)) ==> post.node(s).levels[j]
                    == self.node(s).levels[j],
    {
        let cs = slot_of(curr);
        let ps = slot_of(prev);
        self.lemma_unlink_chain(post, prev, curr, l);
        assert forall|s: int| self.occupied(s) && s != cs implies post.occupied(s) && post.node(
            s,
        ).data == self.node(s).data && post.node(s).height_and_removed == self.node(
            s,
        ).height_and_removed && post.node(s).refs == self.node(s).refs && post.node(s).levels.len()
            == self.node(s).levels.len() by {
            if prev != HEAD && s == ps {
            } else {
                assert(post.nodes[s] == self.nodes[s]);
            }
        }
        assert forall|s: int, j: int|
            self.occupied(s) && 0 <= j < self.node(s).levels.len() && s != cs && (j != l || prev
                == HEAD || s != ps) implies post.node(s).levels[j] == self.node(s).levels[j] by {
            if prev != HEAD && s == ps {
            } else {
                assert(post.nodes[s] == self.nodes[s]);
            }
        }
        assert forall|s: int| post.occupied(s) implies self.occupied(s) by {
            if s != cs && !(prev != HEAD && s == ps) {
                assert(post.nodes[s] == self.nodes[s]);
            }
        }
        assert forall|s: int| #[trigger] self.live(s) <==> post.live(s) by {
            if self.occupied(s) && s != cs {
                assert(post.node(s).height_and_removed == self.node(s).height_and_removed);
            }
        }
        assert forall|j: int| 0 <= j < HEIGHT && j != l implies #[trigger] post.chain(j)
            == self.chain(j) && post.head[j] == self.head[j] by {}
        assert(post@ =~= self@) by {
            assert forall|k: K| self.index@.dom().contains(k) implies post.val_at(self.index@[k])
                == self.val_at(self.index@[k]) by {
                assert(self.live(self.index@[k]));
            }
        }
    }

    /// An unlinking step leaves the chain of its level in order.
    #[verifier::spinoff_prover]
    #[verifier::rlimit(50)]
    proof fn lemma_unlink_level_ok(self, post: Self, prev: usize, curr: usize, l: int)
        requires
            self.unlink_step(post, prev, curr, l),
        ensures
            post.chain_ok(l),
            post.rank(prev, l) == self.rank(prev, l),
    {
        let cs = slot_of(curr);
        let ps = slot_of(prev);
        let i = self.rank(prev, l);
        let c = self.chain(l);
        let d = c.remove(i);
        self.lemma_unlink_chain(post, prev, curr, l);
        self.lemma_unlink_frame(post, prev, curr, l);
        assert(self.chain_ok(l));
        assert(post.head[l].target() == link_at(d, 0));
        assert(post.head[l].mark() == 0);
        assert forall|a: int, b: int| 0 <= a < b < d.len() implies d[a] != d[b] by {
            let a0 = if a < i {
                a
            } else {
                a + 1
            };
            let b0 = if b < i {
                b
            } else {
                b + 1
            };
            assert(c[a0] == d[a] && c[b0] == d[b]);
        }
        assert forall|m: int| 0 <= m < d.len() implies {
            &&& post.occupied(#[trigger] d[m])
            &&& l < post.node(d[m]).levels.len()
            &&& post.node(d[m]).levels[l].target() == link_at(d, m + 1)
        } by {
            let e = d[m];
            let m0 = if m < i {
                m
            } else {
                m + 1
            };
            assert(c[m0] == e);
            assert(e != cs);
            assert(self.occupied(e));
            assert(self.node(e).levels[l].target() == link_at(c, m0 + 1));
            if prev != HEAD && e == ps {
                assert(m0 == i - 1);
            } else {
                assert(post.node(e).levels[l] == self.node(e).levels[l]);
                if m0 + 1 == i {
                    assert(prev != HEAD ==> c[i - 1] == ps);
                    lemma_addr(cs);
                    assert(false);
                }
            }
        }
        assert forall|a: int, b: int|
            0 <= a < b < d.len() && post.live(d[a]) && post.live(d[b]) implies lt(
            post.key_at(d[a]),
            post.key_at(d[b]),
        ) by {
            let a0 = if a < i {
                a
            } else {
                a + 1
            };
            let b0 = if b < i {
                b
            } else {
                b + 1
            };
            assert(c[a0] == d[a] && c[b0] == d[b]);
            assert(self.live(c[a0]) && self.live(c[b0]));
        }
        if prev != HEAD {
            assert(d[i - 1] == ps);
            let m = d.index_of(ps);
            assert(d[m] == ps);
        }
    }

    /// An unlinking step leaves the chains of the other levels in order.
    #[verifier::spinoff_prover]
    #[verifier::rlimit(50)]
    proof fn lemma_unlink_other_ok(self, post: Self, prev: usize, curr: usize, l: int, j: int)
        requires
            self.unlink_step(post, prev, curr, l),
            0 <= j < HEIGHT,
            j != l,
        ensures
            post.chain_ok(j),
    {
        let cs = slot_of(curr);
        let ps = slot_of(prev);
        let cj = self.chain(j);
        self.lemma_unlink_chain(post, prev, curr, l);
        self.lemma_unlink_frame(post, prev, curr, l);
        assert(self.chain_ok(j));
        assert(post.chain(j) == cj);
        assert forall|m: int| 0 <= m < cj.len() implies {
            &&& post.occupied(#[trigger] cj[m])
            &&& j < post.node(cj[m]).levels.len()
            &&& post.node(cj[m]).levels[j].target() == link_at(cj, m + 1)
        } by {
            let e = cj[m];
            assert(self.occupied(e));
            if e == cs {
                assert(cj.contains(cs));
                assert(self.node_ok(cs));
                lemma_count_two(self.chains@, cs, HEIGHT as int, l, j);
            } else {
                assert(post.node(e).levels[j] == self.node(e).levels[j]);
            }
        }
        assert forall|a: int, b: int|
            0 <= a < b < cj.len() && post.live(cj[a]) && post.live(cj[b]) implies lt(
            post.key_at(cj[a]),
            post.key_at(cj[b]),
        ) by {
            assert(self.live(cj[a]) && self.live(cj[b]));
        }
    }

    /// An unlinking step leaves every node that stays in its settled state.
    #[verifier::spinoff_prover]
    #[verifier::rlimit(50)]
    proof fn lemma_unlink_node_ok(self, post: Self, prev: usize, curr: usize, l: int, s: int)
        requires
            self.unlink_step(post, prev, curr, l),
            post.occupied(s),
        ensures
            post.node_ok(s),
            post.complete(s),
    {
        let cs = slot_of(curr);
        let ps = slot_of(prev);
        self.lemma_unlink_chain(post, prev, curr, l);
        self.lemma_unlink_frame(post, prev, curr, l);
        assert(self.occupied(s));
        assert(self.node_ok(s));
        assert(self.complete(s));
        if s == cs {
            lemma_count_less(self.chains@, post.chains@, cs, HEIGHT as int, l);
            assert(!post.live(s));
        } else {
            lemma_count_same(self.chains@, post.chains@, s, HEIGHT as int);
            assert forall|j: int| 0 <= j < post.node(s).levels.len() implies (
            #[trigger] post.node(s).levels[j]).mark() == if post.node(s).removed_spec() {
                1usize
            } else {
                0usize
            } by {
                if j == l && prev != HEAD && s == ps {
                } else {
                    assert(post.node(s).levels[j] == self.node(s).levels[j]);
                }
            }
            if post.live(s) {
                assert(self.live(s));
                assert forall|j: int| 0 <= j < post.node(s).levels.len() implies (
                #[trigger] post.chain(j)).contains(s) by {
                    assert(self.chain(j).contains(s));
                }
            }
        }
    }

    /// An unlinking step keeps the invariant, the map and everything away
    /// from its level.
    #[verifier::spinoff_prover]
    #[verifier::rlimit(50)]
    proof fn lemma_unlinked(self, post: Self, prev: usize, curr: usize, l: int)
        requires
            self.unlink_step(post, prev, curr, l),
        ensures
            post.inv_with(-1, 0),
            post@ == self@,
            self.same_except(post, l),
            0 <= self.rank(prev, l) < self.chain(l).len(),
            self.chain(l)[self.rank(prev, l)] == slot_of(curr),
            post.chain(l) == self.chain(l).remove(self.rank(prev, l)),
            post.rank(prev, l) == self.rank(prev, l),
            post.stale() == if self.node(slot_of(curr)).refs == 1 {
                self.stale() - 1
            } else {
                self.stale() as int
            },
            post.spec_len() == self.spec_len(),
            self.counts_ok(0, 0) ==> post.counts_ok(0, 0),
            self.counts_ok(0, 1) ==> post.counts_ok(0, 1),
    {
        let cs = slot_of(curr);
        let ps = slot_of(prev);
        self.lemma_unlink_chain(post, prev, curr, l);
        self.lemma_unlink_frame(post, prev, curr, l);
        self.lemma_unlink_level_ok(post, prev, curr, l);
        assert forall|j: int| 0 <= j < HEIGHT implies #[trigger] post.chain_ok(j) by {
            if j != l {
                self.lemma_unlink_other_ok(post, prev, curr, l, j);
            }
        }
        assert forall|s: int| #[trigger] post.occupied(s) implies post.node_ok(s) && post.complete(
            s,
        ) by {
            self.lemma_unlink_node_ok(post, prev, curr, l, s);
        }
        assert(post.index_ok()) by {
            assert forall|k: K| #[trigger] post.index@.dom().contains(k) implies post.live(
                post.index@[k],
            ) && post.key_at(post.index@[k]) == k by {
                assert(self.live(self.index@[k]));
            }
        }
        self.lemma_unlink_free(post, prev, curr, l);
        assert forall|s: int| post.dead@.contains(s) <==> #[trigger] post.occupied(s) && post.node(
            s,
        ).removed_spec() by {
            assert(self.dead@.contains(s) <==> self.occupied(s) && self.node(s).removed_spec());
            if self.occupied(s) && s != cs {
                assert(post.node(s).height_and_removed == self.node(s).height_and_removed);
            }
        }
    }

    /// An unlinking step keeps the record of the vacant slots right.
    #[verifier::spinoff_prover]
    #[verifier::rlimit(50)]
    proof fn lemma_unlink_free(self, post: Self, prev: usize, curr: usize, l: int)
        requires
            self.unlink_step(post, prev, curr, l),
        ensures
            post.free_ok(),
    {
        let cs = slot_of(curr);
        let ps = slot_of(prev);
        self.lemma_unlink_chain(post, prev, curr, l);
        assert forall|a: int| 0 <= a < post.free.len() implies (#[trigger] post.free[a])
            < post.nodes.len() && post.nodes[post.free[a] as int] is None by {
            if a < self.free.len() {
                let f = self.free[a] as int;
                assert(post.free[a] == self.free[a]);
                assert(self.nodes[f] is None);
                assert(f != cs);
                assert(prev != HEAD ==> f != ps);
                assert(post.nodes[f] == self.nodes[f]);
            }
        }
        assert forall|a: int, b: int| 0 <= a < b < post.free.len() implies post.free[a]
            != post.free[b] by {
            if b < self.free.len() {
                assert(post.free[a] == self.free[a] && post.free[b] == self.free[b]);
            } else {
                assert(post.free[a] == self.free[a]);
                assert(self.nodes[self.free[a] as int] is None);
            }
        }
    }

    /// Swings the link of `prev` at `level` from the removed node `curr` to
    /// `next`, the node that follows `curr` there, and counts one level less
    /// for `curr`. When that was the last level that held `curr`, its slot
    /// goes back to the arena. The count of entries stays as it is: to take
    /// the node off the count is for the removal that marked it.
    ///
    /// Succeeds exactly when the link of `prev` holds `curr` untagged;
    /// otherwise nothing changes.
    #[verifier::spinoff_prover]
    #[verifier::rlimit(50)]
    pub(super) fn unlink_level(&mut self, prev: usize, curr: usize, next: usize, level: usize) -> (r:
        Result<usize, ()>)
        requires
            old(self).inv_with(-1, 0),
            old(self).is_tower(prev),
            level < old(self).tower_height(prev),
            curr != HEAD,
            old(self).is_tower(curr),
            level < old(self).tower_height(curr),
            old(self).node(slot_of(curr)).removed_spec(),
            next == old(self).link(curr, level as int).target(),
        ensures
            final(self).inv_with(-1, 0),
            old(self).wf() ==> final(self).wf(),
            old(self).counts_ok(0, 1) ==> final(self).counts_ok(0, 1),
            final(self).spec_len() == old(self).spec_len(),
            final(self).seed() == old(self).seed(),
            final(self).max_height() == old(self).max_height(),
            final(self)@ == old(self)@,
            r is Ok <==> (old(self).link(prev, level as int).target() == curr && old(self).link(
                prev,
                level as int,
            ).mark() == 0),
            r is Err ==> *final(self) == *old(self),
            r is Ok ==> ({
                let i = old(self).rank(prev, level as int);
                &&& r->Ok_0 == next
                &&& old(self).same_except(*final(self), level as int)
                &&& 0 <= i < old(self).chain(level as int).len()
                &&& old(self).chain(level as int)[i] == slot_of(curr)
                &&& final(self).chain(level as int) == old(self).chain(level as int).remove(i)
                &&& final(self).rank(prev, level as int) == i
                &&& final(self).link(prev, level as int).target() == next
                &&& final(self).link(prev, level as int).mark() == 0
                &&& final(self).stale() <= old(self).stale()
                &&& old(self).node(slot_of(curr)).refs >= 1
                &&& old(self).node(slot_of(curr)).refs == 1 ==> !final(self).occupied(
                    slot_of(curr),
                ) && final(self).stale() == old(self).stale() - 1
                &&& old(self).node(slot_of(curr)).refs > 1 ==> final(self).occupied(slot_of(curr))
                    && final(self).node(slot_of(curr)).refs == old(self).node(slot_of(curr)).refs
                    - 1 && final(self).node(slot_of(curr)).removed_spec() && final(self).node(
                    slot_of(curr),
                ).levels == old(self).node(slot_of(curr)).levels && final(self).stale() == old(
                    self,
                ).stale()
            }),
    {
        let seen = self.load(prev, level);
        if seen.0 != curr || seen.1 != 0 {
            return Err(());
        }
        let ghost pre = *self;
        let ghost lv = level as int;
        let ghost c = pre.chain(lv);
        let ghost cs = slot_of(curr);
        let ghost ps = slot_of(prev);
        let ghost i = pre.rank(prev, lv);
        proof {
            pre.lemma_successor(prev, lv, -1, 0);
            pre.link(curr, lv).lemma_parts();
            lemma_slot(curr);
            assert(pre.chain_ok(lv));
        }
        let swung = self.swing(prev, level, curr, next);
        let slot = curr / 8 - 2;
        let mut left: usize = 1;
        match &mut self.nodes[slot] {
            Some(n) => {
                match n.try_sub_ref() {
                    Ok(rest) => {
                        left = rest;
                    },
                    Err(_) => {},
                }
            },
            None => {},
        }
        self.chains = Ghost(self.chains@.update(lv, c.remove(i)));
        proof {
            assert(pre.occupied(cs));
            assert(pre.node_ok(cs));
            assert(pre.complete(cs));
            assert(self.occupied(cs));
            assert(left == pre.node(cs).refs - 1);
        }
        if left == 0 {
            self.retire_node(slot);
            self.dead = Ghost(self.dead@.remove(cs));
        }
        proof {
            pre.lemma_unlinked(*self, prev, curr, lv);
        }
        Ok(next)
    }

    /// The first phase of a removal: marks the node that `target` names as
    /// removed, takes its entry out and freezes every level of its tower.
    /// The node stays where it is linked; whoever passes by unlinks it.
    /// The count still holds the node: the caller owes the list one.
    ///
    /// Succeeds exactly when the node was live; a node that was already
    /// marked is left as it is.
    #[verifier::spinoff_prover]
    #[verifier::rlimit(50)]
    pub(super) fn mark_removed(&mut self, target: usize) -> (r: Result<(K, V), ()>)
        requires
            old(self).wf(),
            target != HEAD,
            old(self).is_tower(target),
        ensures
            final(self).seed() == old(self).seed(),
            final(self).max_height() == old(self).max_height(),
            r is Ok <==> old(self).live(slot_of(target)),
            r is Err ==> *final(self) == *old(self),
            r is Ok ==> ({
                let t = slot_of(target);
                &&& r->Ok_0 == old(self).entry_at(target)
                &&& final(self).inv_with(-1, 0)
                &&& final(self).counts_ok(0, 1)
                &&& final(self)@ == old(self)@.remove(old(self).key_at(t))
                &&& old(self)@.contains_pair(old(self).key_at(t), old(self).val_at(t))
                &&& final(self).stale() == old(self).stale() + 1
                &&& final(self).spec_len() == old(self).spec_len()
                &&& final(self).head@ == old(self).head@
                &&& final(self).chains@ == old(self).chains@
                &&& final(self).nodes.len() == old(self).nodes.len()
                &&& forall|s: int|
                    0 <= s < old(self).nodes.len() && s != t ==> final(self).nodes[s] == old(
                        self,
                    ).nodes[s]
                &&& final(self).occupied(t)
                &&& final(self).node(t).removed_spec()
                &&& final(self).node(t).refs == old(self).node(t).refs
                &&& final(self).node(t).levels.len() == old(self).node(t).levels.len()
                &&& forall|l: int|
                    0 <= l < old(self).node(t).levels.len() ==> (#[trigger] final(self).node(
                        t,
                    ).levels[l]).target() == old(self).node(t).levels[l].target()
            }),
    {
        let ghost pre = *self;
        let ghost t = slot_of(target);
        let slot = target / 8 - 2;
        if self.removed_at(target) {
            return Err(());
        }
        proof {
            assert(pre.occupied(t));
            assert(pre.node_ok(t));
            assert(pre.complete(t));
        }
        let taken = match &mut self.nodes[slot] {
            Some(n) => n.try_remove_and_tag(),
            None => Err(()),
        };
        let ghost key = pre.key_at(t);
        self.index = Ghost(self.index@.remove(key));
        self.dead = Ghost(self.dead@.insert(t));
        proof {
            assert(taken is Ok);
            assert(pre.index_ok());
            assert forall|l: int| 0 <= l < HEIGHT implies #[trigger] self.chain_ok(l) by {
                assert(pre.chain_ok(l));
                let c = pre.chain(l);
                assert forall|m: int| 0 <= m < c.len() implies {
                    &&& self.occupied(#[trigger] c[m])
                    &&& l < self.node(c[m]).levels.len()
                    &&& self.node(c[m]).levels[l].target() == link_at(c, m + 1)
                } by {
                    assert(pre.occupied(c[m]));
                    if c[m] != t {
                        assert(self.nodes[c[m]] == pre.nodes[c[m]]);
                    }
                }
                assert forall|a: int, b: int|
                    0 <= a < b < c.len() && self.live(c[a]) && self.live(c[b]) implies lt(
                    self.key_at(c[a]),
                    self.key_at(c[b]),
                ) by {
                    assert(self.nodes[c[a]] == pre.nodes[c[a]]);
                    assert(self.nodes[c[b]] == pre.nodes[c[b]]);
                    assert(pre.live(c[a]) && pre.live(c[b]));
                }
            }
            assert forall|s: int| #[trigger] self.occupied(s) implies self.node_ok(s)
                && self.complete(s) by {
                assert(pre.occupied(s));
                assert(pre.node_ok(s));
                assert(pre.complete(s));
                if s != t {
                    assert(self.nodes[s] == pre.nodes[s]);
                    if self.live(s) {
                        assert(pre.live(s));
                        assert(pre.index@[pre.key_at(s)] == s);
                        assert(pre.key_at(s) != key);
                        assert forall|l: int| 0 <= l < self.node(s).levels.len() implies (
                        #[trigger] self.chain(l)).contains(s) by {
                            assert(pre.chain(l).contains(s));
                        }
                    }
                }
            }
            assert(self.index_ok()) by {
                assert forall|k: K| #[trigger] self.index@.dom().contains(k) implies self.live(
                    self.index@[k],
                ) && self.key_at(self.index@[k]) == k by {
                    assert(pre.index@.dom().contains(k));
                    let s = pre.index@[k];
                    assert(pre.live(s));
                    assert(s != t);
                    assert(self.nodes[s] == pre.nodes[s]);
                }
            }
            assert(self.free_ok()) by {
                assert(pre.free_ok());
                assert forall|a: int| 0 <= a < self.free.len() implies (#[trigger] self.free[a])
                    < self.nodes.len() && self.nodes[self.free[a] as int] is None by {
                    let f = pre.free[a] as int;
                    assert(pre.nodes[f] is None);
                    assert(self.nodes[f] == pre.nodes[f]);
                }
            }
            assert forall|s: int| self.dead@.contains(s) <==> #[trigger] self.occupied(s)
                && self.node(s).removed_spec() by {
                assert(pre.dead@.contains(s) <==> pre.occupied(s) && pre.node(s).removed_spec());
                if 0 <= s < pre.nodes.len() && s != t {
                    assert(self.nodes[s] == pre.nodes[s]);
                }
            }
            assert(!pre.dead@.contains(t)) by {
                assert(pre.occupied(t));
            }
            assert(self@ =~= pre@.remove(key)) by {
                assert forall|k: K| self.index@.dom().contains(k) implies self.val_at(self.index@[k])
                    == pre.val_at(pre.index@[k]) by {
                    let s = pre.index@[k];
                    assert(pre.live(s));
                    assert(s != t);
                    assert(self.nodes[s] == pre.nodes[s]);
                }
            }
        }
        taken
    }

    /// The second phase of a removal: unlinks a removed node from the top
    /// level of its tower down, each time by swinging the link of the
    /// predecessor that a search found to the node's own successor. When
    /// the bottom level is done no chain holds the node, and its slot goes
    /// back to the arena: the address then names no tower, and at every
    /// level of the old tower the predecessor's untagged link holds what the
    /// node's link held. The removal that marked the node then takes it off
    /// the count here.
    ///
    /// A level is given up where the predecessor's link does not hold the
    /// node, and the result is then the level above the last one done. With
    /// the outcome of a search on the list as it stands that does not
    /// happen.
    #[verifier::spinoff_prover]
    #[verifier::rlimit(50)]
    fn unlink(&mut self, node: usize, height: usize, prev: &Vec<(usize, usize)>) -> (r: Result<
        (),
        usize,
    >)
        requires
            old(self).inv_with(-1, 0),
            old(self).counts_ok(0, 1),
            node != HEAD,
            old(self).is_tower(node),
            old(self).node(slot_of(node)).removed_spec(),
            height == old(self).tower_height(node),
            prev.len() == HEIGHT,
            forall|l: int|
                0 <= l < height ==> {
                    &&& old(self).is_tower((#[trigger] prev[l]).0)
                    &&& l < old(self).tower_height(prev[l].0)
                    &&& old(self).link(prev[l].0, l).target() == node
                    &&& old(self).link(prev[l].0, l).mark() == 0
                },
        ensures
            final(self).seed() == old(self).seed(),
            final(self).max_height() == old(self).max_height(),
            r is Ok,
            final(self).wf(),
            !final(self).is_tower(node),
            forall|l: int|
                0 <= l < height ==> {
                    &&& final(self).is_tower((#[trigger] prev[l]).0)
                    &&& final(self).link(prev[l].0, l).target() == old(self).link(node, l).target()
                    &&& final(self).link(prev[l].0, l).mark() == 0
                },
            final(self)@ == old(self)@,
            final(self).stale() == old(self).stale() - 1,
            final(self).spec_len() == old(self).spec_len() - 1,
    {
        let ghost t = slot_of(node);
        let mut i = height;
        proof {
            assert(self.occupied(t));
            assert(self.node_ok(t));
            assert(self.complete(t));
            assert forall|l: int| 0 <= l < HEIGHT implies ((#[trigger] self.chains@[l]).contains(t)
                <==> l < height) by {
                assert(self.chain_ok(l));
                if l < height {
                    self.lemma_successor(prev[l].0, l, -1, 0);
                    let c = self.chain(l);
                    let m = self.rank(prev[l].0, l);
                    lemma_addr(c[m]);
                    lemma_slot(node);
                    assert(c[m] == t);
                } else if self.chain(l).contains(t) {
                    let m = self.chain(l).index_of(t);
                    assert(self.chain(l)[m] == t);
                }
            }
            lemma_count_prefix(self.chains@, t, HEIGHT as int, height as int);
        }
        while i > 0
            invariant
                0 <= i <= height,
                height <= HEIGHT,
                prev.len() == HEIGHT,
                node != HEAD,
                t == slot_of(node),
                self.inv_with(-1, 0),
                self.counts_ok(0, 1),
                self.spec_len() == old(self).spec_len(),
                self@ == old(self)@,
                self.state.seed == old(self).state.seed,
                self.state.max_height == old(self).state.max_height,
                i > 0 ==> self.is_tower(node) && self.node(t).removed_spec() && self.node(t).refs
                    == i && self.tower_height(node) == height && self.stale() == old(self).stale(),
                i == 0 ==> self.stale() == old(self).stale() - 1,
                i == 0 ==> !self.occupied(t),
                i > 0 ==> self.node(t).levels == old(self).node(t).levels,
                height >= 1,
                forall|l: int|
                    i <= l < height ==> {
                        &&& self.is_tower((#[trigger] prev[l]).0)
                        &&& l < self.tower_height(prev[l].0)
                        &&& prev[l].0 != HEAD ==> self.live(slot_of(prev[l].0))
                        &&& self.link(prev[l].0, l).target() == old(self).link(node, l).target()
                        &&& self.link(prev[l].0, l).mark() == 0
                    },
                forall|l: int|
                    0 <= l < i ==> {
                        &&& self.is_tower((#[trigger] prev[l]).0)
                        &&& l < self.tower_height(prev[l].0)
                        &&& self.link(prev[l].0, l).target() == node
                        &&& self.link(prev[l].0, l).mark() == 0
                    },
            decreases i,
        {
            let l = i - 1;
            let (pred, _) = prev[l];
            let ghost before = *self;
            let (new_next, _) = self.load(node, l);
            proof {
                assert(before.is_tower(prev[l as int].0));
            }
            if self.unlink_level(pred, node, new_next, l).is_err() {
                return Err(i);
            }
            proof {
                assert forall|m: int| 0 <= m < l implies {
                    &&& self.is_tower((#[trigger] prev[m]).0)
                    &&& m < self.tower_height(prev[m].0)
                    &&& self.link(prev[m].0, m).target() == node
                    &&& self.link(prev[m].0, m).mark() == 0
                } by {
                    let a = prev[m].0;
                    assert(before.is_tower(a));
                    if a != HEAD {
                        assert(before.occupied(slot_of(a)));
                        assert(before.node_ok(slot_of(a)));
                        assert(before.live(slot_of(a)));
                    } else {
                        assert(before.same_except(*self, l as int));
                        assert(0 <= m < HEIGHT && m != l);
                        assert(self.chain(m) == before.chain(m));
                        assert(self.head[m] == before.head[m]);
                    }
                }
                if l > 0 {
                    assert(self.occupied(t));
                }
                assert forall|m: int| l <= m < height implies {
                    &&& self.is_tower((#[trigger] prev[m]).0)
                    &&& m < self.tower_height(prev[m].0)
                    &&& prev[m].0 != HEAD ==> self.live(slot_of(prev[m].0))
                    &&& self.link(prev[m].0, m).target() == old(self).link(node, m).target()
                    &&& self.link(prev[m].0, m).mark() == 0
                } by {
                    let a = prev[m].0;
                    assert(before.same_except(*self, l as int));
                    assert(before.is_tower(a));
                    if a != HEAD {
                        assert(before.occupied(slot_of(a)));
                        assert(before.node_ok(slot_of(a)));
                        if m == l {
                            assert(before.node(slot_of(a)).levels[m].mark() == 0);
                        }
                        assert(before.live(slot_of(a)));
                    }
                    if m > l {
                        assert(0 <= m < HEIGHT && m != l);
                        assert(self.chain(m) == before.chain(m));
                        assert(self.head[m] == before.head[m]);
                        if a != HEAD {
                            assert(self.node(slot_of(a)).levels[m] == before.node(
                                slot_of(a),
                            ).levels[m]);
                        }
                    }
                }
            }
            i -= 1;
        }
        self.count_down();
        Ok(())
    }

    /// Takes one node off the count. This is for the removal that marked
    /// the node, once it has unlinked the node or has left that to others.
    #[verifier::spinoff_prover]
    #[verifier::rlimit(50)]
    pub(super) fn count_down(&mut self)
        requires
            old(self).inv_with(-1, 0),
            old(self).counts_ok(0, 1),
        ensures
            final(self).wf(),
            final(self)@ == old(self)@,
            final(self).spec_len() == old(self).spec_len() - 1,
            final(self).stale() == old(self).stale(),
            final(self).seed() == old(self).seed(),
            final(self).max_height() == old(self).max_height(),
            final(self).head@ == old(self).head@,
            final(self).nodes@ == old(self).nodes@,
            final(self).free@ == old(self).free@,
            final(self).chains@ == old(self).chains@,
            final(self).index@ == old(self).index@,
            final(self).dead@ == old(self).dead@,
    {
        self.state.len = self.state.len - 1;
        proof {
            let pre = *old(self);
            assert forall|l: int| 0 <= l < HEIGHT implies #[trigger] self.chain_ok(l) by {
                assert(pre.chain_ok(l));
            }
            assert forall|s: int| #[trigger] self.occupied(s) implies self.node_ok(s)
                && self.complete(s) by {
                assert(pre.occupied(s));
                assert(pre.node_ok(s));
                assert(pre.complete(s));
                assert(self.node(s) == pre.node(s));
                if self.live(s) {
                    assert forall|l: int| 0 <= l < self.node(s).levels.len() implies (
                    #[trigger] self.chain(l)).contains(s) by {
                        assert(pre.chain(l).contains(s));
                    }
                }
            }
            assert(self.index_ok()) by {
                assert(pre.index_ok());
                assert forall|k: K| #[trigger] self.index@.dom().contains(k) implies self.live(
                    self.index@[k],
                ) && self.key_at(self.index@[k]) == k by {
                    assert(pre.live(pre.index@[k]));
                }
            }
            assert(self.free_ok()) by {
                assert(pre.free_ok());
            }
            assert forall|s: int| self.dead@.contains(s) <==> #[trigger] self.occupied(s)
                && self.node(s).removed_spec() by {
                assert(pre.occupied(s) <==> self.occupied(s));
            }
            assert(self@ =~= pre@);
        }
    }

    /// Removes the node that a search found to hold `key`: marks it, takes
    /// its entry and freezes its tower, then unlinks it at every level.
    #[verifier::spinoff_prover]
    #[verifier::rlimit(50)]
    pub(super) fn evict(&mut self, search: &SearchResult, Ghost(key): Ghost<K>) -> (r: Option<(K, V)>)
        requires
            old(self).wf(),
            old(self).found(*search, key, false),
            search.target is Some,
        ensures
            final(self).wf(),
            final(self).seed() == old(self).seed(),
            final(self).max_height() == old(self).max_height(),
            !final(self).is_tower(search.target->Some_0),
            old(self)@.dom().contains(key),
            r == Some((key, old(self)@[key])),
            final(self)@ == old(self)@.remove(key),
            final(self).stale() == old(self).stale(),
            final(self).spec_len() == old(self).spec_len() - 1,
    {
        let ghost pre = *self;
        let target = match search.target {
            Some(target) => target,
            None => vstd::pervasive::unreached(),
        };
        let ghost t = slot_of(target);
        proof {
            assert(pre.index_ok());
            assert(pre.live(pre.index@[key]));
            lemma_addr(pre.index@[key]);
        }
        let height = self.height_at(target);
        proof {
            assert(pre.occupied(t));
            assert(pre.node_ok(t));
            assert forall|l: int| 0 <= l < height implies {
                &&& pre.bracket(l, (#[trigger] search.prev[l]).0, search.prev[l].1, key)
                &&& search.prev[l].1 == target
                &&& search.prev[l].0 != target
            } by {
                crate::order::lemma_lt_irreflexive(key);
            }
        }
        match self.mark_removed(target) {
            Ok(entry) => {
                proof {
                    assert forall|l: int| 0 <= l < height implies {
                        &&& self.is_tower((#[trigger] search.prev[l]).0)
                        &&& l < self.tower_height(search.prev[l].0)
                        &&& self.link(search.prev[l].0, l).target() == target
                        &&& self.link(search.prev[l].0, l).mark() == 0
                    } by {
                        let a = search.prev[l].0;
                        assert(pre.bracket(l, a, search.prev[l].1, key));
                        if a != HEAD {
                            assert(pre.occupied(slot_of(a)));
                            assert(self.nodes[slot_of(a)] == pre.nodes[slot_of(a)]);
                        }
                    }
                }
                let unlinked = self.unlink(target, height, &search.prev);
                Some(entry)
            },
            Err(_) => None,
        }
    }
}

} // verus!
