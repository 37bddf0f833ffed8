//! The skip list.
//!
//! Every level is a chain of nodes that starts at the head and follows the
//! forward links of that level. Live nodes stand in every chain below their
//! height, in key order. A removed node stays in a chain, frozen, until an
//! operation that passes by swings its predecessor's link past it; when no
//! chain holds it any more, its slot is given back.

use vstd::prelude::*;
use crate::height::random_seed;
use crate::node::Node;
use crate::node::HEIGHT;
use crate::order::lt;
use crate::order::total_order;
use crate::tagged::MaybeTagged;
use crate::tagged::NULL;

mod handles;
mod link;
mod map;
mod search;
mod structure;
mod unlink;

pub use handles::IntoIter;
pub use handles::Iter;
pub use handles::IterMut;
pub use handles::MutEntry;
pub use handles::Removable;

verus! {

/// The address of the head tower.
pub const HEAD: usize = 8;

/// The number of nodes that the arena can name: every slot needs an
/// address of its own, a multiple of 8 above the head's, within a word.
pub const CAPACITY: usize = usize::MAX / 8 - 2;

/// The address of the node in a slot of the arena.
pub open spec fn addr_of(slot: int) -> usize {
    ((slot + 2) * 8) as usize
}

/// The slot of the arena that a node address names.
pub open spec fn slot_of(addr: usize) -> int {
    addr as int / 8 - 2
}

/// The address that a chain holds at a position, null past its end.
pub open spec fn link_at(c: Seq<int>, i: int) -> usize {
    if 0 <= i < c.len() {
        addr_of(c[i])
    } else {
        NULL
    }
}

/// The number of levels below `n` whose chain holds the slot.
pub open spec fn count_linked(chains: Seq<Seq<int>>, s: int, n: int) -> nat
    decreases n,
{
    if n <= 0 {
        0
    } else {
        count_linked(chains, s, n - 1) + if chains[n - 1].contains(s) {
            1nat
        } else {
            0nat
        }
    }
}

/// The height that is left of `h` once the empty top of the head tower is
/// taken into account: from 4 upwards a height is lowered as long as the
/// head has no successor two levels below it.
pub open spec fn clamp_height(h: int, head: Seq<MaybeTagged>) -> int
    decreases h,
{
    if h >= 4 && h - 2 < head.len() && head[h - 2].target() == NULL {
        clamp_height(h - 1, head)
    } else {
        h
    }
}


/// Slots of the arena have distinct, aligned, non-null addresses above the
/// head's, and an address leads back to its slot.
pub proof fn lemma_addr(slot: int)
    requires
        0 <= slot < CAPACITY,
    ensures
        addr_of(slot) == (slot + 2) * 8,
        addr_of(slot) % 8 == 0,
        addr_of(slot) >= 16,
        addr_of(slot) != NULL,
        addr_of(slot) != HEAD,
        slot_of(addr_of(slot)) == slot,
        crate::tagged::aligned(addr_of(slot)),
{
}

/// An aligned address from 16 upwards is the address of its slot.
pub proof fn lemma_slot(addr: usize)
    requires
        addr % 8 == 0,
        addr >= 16,
    ensures
        slot_of(addr) >= 0,
        addr_of(slot_of(addr)) == addr,
{
}

/// The count of linked levels never exceeds the number of levels counted.
pub proof fn lemma_count_bound(chains: Seq<Seq<int>>, s: int, n: int)
    requires
        0 <= n,
    ensures
        count_linked(chains, s, n) <= n,
    decreases n,
{
    if n > 0 {
        lemma_count_bound(chains, s, n - 1);
    }
}

/// A slot that some counted chain holds is counted at least once.
pub proof fn lemma_count_positive(chains: Seq<Seq<int>>, s: int, n: int, l: int)
    requires
        0 <= l < n,
        chains[l].contains(s),
    ensures
        count_linked(chains, s, n) >= 1,
    decreases n,
{
    if l < n - 1 {
        lemma_count_positive(chains, s, n - 1, l);
    }
}

/// A slot that is counted at least once is in some counted chain.
pub proof fn lemma_count_witness(chains: Seq<Seq<int>>, s: int, n: int) -> (l: int)
    requires
        count_linked(chains, s, n) >= 1,
    ensures
        0 <= l < n,
        chains[l].contains(s),
    decreases n,
{
    if chains[n - 1].contains(s) {
        n - 1
    } else {
        lemma_count_witness(chains, s, n - 1)
    }
}

/// Chains that hold a slot at the same levels count it alike.
pub proof fn lemma_count_same(a: Seq<Seq<int>>, b: Seq<Seq<int>>, s: int, n: int)
    requires
        0 <= n,
        forall|l: int| 0 <= l < n ==> (#[trigger] a[l]).contains(s) == b[l].contains(s),
    ensures
        count_linked(a, s, n) == count_linked(b, s, n),
    decreases n,
{
    if n > 0 {
        lemma_count_same(a, b, s, n - 1);
        assert(a[n - 1].contains(s) == b[n - 1].contains(s));
    }
}

/// Chains that differ for a slot at one level only, where the first holds
/// it and the second does not, count it one apart.
pub proof fn lemma_count_less(a: Seq<Seq<int>>, b: Seq<Seq<int>>, s: int, n: int, at: int)
    requires
        0 <= at < n,
        a[at].contains(s),
        !b[at].contains(s),
        forall|l: int| 0 <= l < n && l != at ==> (#[trigger] a[l]).contains(s) == b[l].contains(s),
    ensures
        count_linked(a, s, n) == count_linked(b, s, n) + 1,
    decreases n,
{
    if at == n - 1 {
        lemma_count_same(a, b, s, n - 1);
    } else {
        lemma_count_less(a, b, s, n - 1, at);
        assert(a[n - 1].contains(s) == b[n - 1].contains(s));
    }
}

/// A slot that two different levels hold is counted at least twice.
pub proof fn lemma_count_two(chains: Seq<Seq<int>>, s: int, n: int, a: int, b: int)
    requires
        0 <= a < n,
        0 <= b < n,
        a != b,
        chains[a].contains(s),
        chains[b].contains(s),
    ensures
        count_linked(chains, s, n) >= 2,
    decreases n,
{
    if a == n - 1 {
        lemma_count_positive(chains, s, n - 1, b);
    } else if b == n - 1 {
        lemma_count_positive(chains, s, n - 1, a);
    } else {
        lemma_count_two(chains, s, n - 1, a, b);
    }
}

/// A slot that exactly the levels below `h` hold is counted `h` times.
pub proof fn lemma_count_prefix(chains: Seq<Seq<int>>, s: int, n: int, h: int)
    requires
        0 <= h <= n,
        forall|l: int| 0 <= l < n ==> ((#[trigger] chains[l]).contains(s) <==> l < h),
    ensures
        count_linked(chains, s, n) == h,
    decreases n,
{
    if n > 0 {
        assert(chains[n - 1].contains(s) <==> n - 1 < h);
        if h == n {
            lemma_count_prefix(chains, s, n - 1, h - 1);
        } else {
            lemma_count_prefix(chains, s, n - 1, h);
        }
    }
}

/// Counters of a list.
pub struct ListState {
    pub len: usize,
    pub max_height: usize,
    pub seed: usize,
}

impl ListState {
    /// Counters of an empty list whose heights are drawn from `seed` on.
    pub fn with_seed(seed: usize) -> (r: Self)
        ensures
            r.len == 0,
            r.max_height == 1,
            r.seed == seed,
    {
        ListState { len: 0, max_height: 1, seed }
    }

    /// Counters of an empty list, with a pseudo-random state drawn afresh:
    /// whatever state comes, the counters are those of `with_seed` on it.
    pub fn new() -> (r: Self)
        ensures
            r.len == 0,
            r.max_height == 1,
    {
        ListState::with_seed(random_seed())
    }
}

/// What a search found: for every level the last node before the key and the
/// node that follows it there, both by address, and the address of the live
/// node that holds the key, if there is one.
pub struct SearchResult {
    pub prev: Vec<(usize, usize)>,
    pub target: Option<usize>,
}

/// A read-only handle on one entry of a list.
pub struct Entry<'a, K, V> {
    key: &'a K,
    val: &'a V,
}

impl<'a, K, V> Entry<'a, K, V> {
    /// The key and the value the handle stands for.
    pub closed spec fn view(self) -> (K, V) {
        (*self.key, *self.val)
    }

    /// The key of the entry.
    pub fn key(&self) -> (r: &'a K)
        ensures
            *r == self@.0,
    {
        self.key
    }

    /// The value of the entry.
    pub fn val(&self) -> (r: &'a V)
        ensures
            *r == self@.1,
    {
        self.val
    }
}

/// A handle that is made from the entry of a node.
pub trait NodeEntry<'a, K, V>: Sized {
    /// The key and the value the handle stands for.
    spec fn entry(self) -> (K, V);

    /// A handle on the entry that `key` and `val` make up.
    fn from_raw(key: &'a K, val: &'a V) -> (r: Self)
        ensures
            r.entry() == (*key, *val),
    ;
}

impl<'a, K, V> NodeEntry<'a, K, V> for Entry<'a, K, V> {
    closed spec fn entry(self) -> (K, V) {
        self@
    }

    fn from_raw(key: &'a K, val: &'a V) -> (r: Self) {
        Entry { key, val }
    }
}

/// An ordered map from `K` to `V`.
#[verifier::reject_recursive_types(K)]
pub struct SkipList<K, V> {
    /// The tower of the head: one link per level.
    head: Vec<MaybeTagged>,
    /// The arena. The node in slot `s` has the address `addr_of(s)`.
    nodes: Vec<Option<Node<K, V>>>,
    /// The vacant slots of the arena, to be taken up again.
    free: Vec<usize>,
    state: ListState,
    /// For every level, the slots it links, in the order of the links.
    chains: Ghost<Seq<Seq<int>>>,
    /// The slot of the live node of every key.
    index: Ghost<Map<K, int>>,
    /// The slots of the removed nodes that are still in the arena.
    dead: Ghost<Set<int>>,
}

impl<K: Ord, V> SkipList<K, V> {
    /// Slot `s` of the arena holds a node.
    spec fn occupied(self, s: int) -> bool {
        0 <= s < self.nodes.len() && self.nodes[s] is Some
    }

    /// The node in slot `s`.
    spec fn node(self, s: int) -> Node<K, V> {
        self.nodes[s]->Some_0
    }

    /// Slot `s` holds a node that is not removed.
    spec fn live(self, s: int) -> bool {
        self.occupied(s) && !self.node(s).removed_spec()
    }

    /// The key of the live node in slot `s`.
    spec fn key_at(self, s: int) -> K {
        self.node(s).data->Some_0.0
    }

    /// The value of the live node in slot `s`.
    spec fn val_at(self, s: int) -> V {
        self.node(s).data->Some_0.1
    }

    /// The slots that level `l` links, in the order of the links.
    spec fn chain(self, l: int) -> Seq<int> {
        self.chains@[l]
    }

    /// `a` names the head or a node in the arena.
    pub closed spec fn is_tower(self, a: usize) -> bool {
        a == HEAD || (a % 8 == 0 && a >= 16 && self.occupied(slot_of(a)))
    }

    /// The forward link of tower `a` at level `l`.
    pub closed spec fn link(self, a: usize, l: int) -> MaybeTagged {
        if a == HEAD {
            self.head[l]
        } else {
            self.node(slot_of(a)).levels[l]
        }
    }

    /// The number of levels of tower `a`.
    pub closed spec fn tower_height(self, a: usize) -> int {
        if a == HEAD {
            HEIGHT as int
        } else {
            self.node(slot_of(a)).levels.len() as int
        }
    }

    /// The sizes fit, and the record of removed nodes names exactly the
    /// removed nodes of the arena.
    spec fn shape(self) -> bool {
        &&& total_order::<K>()
        &&& self.head.len() == HEIGHT
        &&& self.chains@.len() == HEIGHT
        &&& self.nodes.len() <= CAPACITY
        &&& 1 <= self.state.max_height <= HEIGHT
        &&& self.index@.dom().finite()
        &&& self.dead@.finite()
        &&& forall|s: int|
            self.dead@.contains(s) <==> #[trigger] self.occupied(s) && self.node(s).removed_spec()
    }

    /// The node in slot `s` has a tower of its height, holds its entry
    /// while it is live, is frozen exactly when it is removed, and counts
    /// the levels that link it.
    spec fn node_ok(self, s: int) -> bool {
        let n = self.node(s);
        &&& 1 <= n.height_spec() <= self.state.max_height
        &&& n.height_spec() == n.levels.len()
        &&& !n.removed_spec() ==> n.data is Some
        &&& forall|l: int|
            0 <= l < n.levels.len() ==> (#[trigger] n.levels[l]).mark() == if n.removed_spec() {
                1usize
            } else {
                0usize
            }
        &&& n.refs == count_linked(self.chains@, s, HEIGHT as int)
    }

    /// Level `l` is a chain: the untagged link of the head leads to its
    /// first node, the link of each node to the next, no node comes twice,
    /// and the live nodes come in the order of their keys.
    spec fn chain_ok(self, l: int) -> bool {
        let c = self.chain(l);
        &&& self.head[l].target() == link_at(c, 0)
        &&& self.head[l].mark() == 0
        &&& forall|i: int, j: int| 0 <= i < j < c.len() ==> c[i] != c[j]
        &&& forall|i: int|
            0 <= i < c.len() ==> {
                &&& self.occupied(#[trigger] c[i])
                &&& l < self.node(c[i]).levels.len()
                &&& self.node(c[i]).levels[l].target() == link_at(c, i + 1)
            }
        &&& forall|i: int, j: int|
            0 <= i < j < c.len() && self.live(c[i]) && self.live(c[j]) ==> lt(
                self.key_at(c[i]),
                self.key_at(c[j]),
            )
    }

    /// Every key that is recorded is the key of the live node recorded for
    /// it.
    spec fn index_ok(self) -> bool {
        forall|k: K| #[trigger]
            self.index@.dom().contains(k) ==> self.live(self.index@[k]) && self.key_at(
                self.index@[k],
            ) == k
    }

    /// The slots on record as vacant are vacant, each on record once.
    spec fn free_ok(self) -> bool {
        &&& forall|i: int|
            0 <= i < self.free.len() ==> (#[trigger] self.free[i]) < self.nodes.len()
                && self.nodes[self.free[i] as int] is None
        &&& forall|i: int, j: int| 0 <= i < j < self.free.len() ==> self.free[i] != self.free[j]
    }

    /// A slot in its settled state: linked somewhere, and if live, found by
    /// its key and linked at every level of its tower.
    spec fn complete(self, s: int) -> bool {
        &&& self.node(s).refs >= 1
        &&& self.live(s) ==> {
            &&& self.index@.dom().contains(self.key_at(s))
            &&& self.index@[self.key_at(s)] == s
            &&& forall|l: int|
                0 <= l < self.node(s).levels.len() ==> (#[trigger] self.chain(l)).contains(s)
        }
    }

    /// A node that is being linked: live, not yet found by its key, and in
    /// the chains of exactly the levels below `n`.
    spec fn pending_ok(self, p: int, n: int) -> bool {
        &&& self.live(p)
        &&& !self.index@.dom().contains(self.key_at(p))
        &&& 0 <= n <= self.node(p).levels.len()
        &&& forall|l: int| 0 <= l < HEIGHT ==> ((#[trigger] self.chain(l)).contains(p) <==> l < n)
    }

    /// The invariant of a list in which the node in slot `p`, if `p` is a
    /// slot, is being linked and has reached level `n`.
    spec fn inv_with(self, p: int, n: int) -> bool {
        &&& self.shape()
        &&& self.index_ok()
        &&& self.free_ok()
        &&& forall|l: int| 0 <= l < HEIGHT ==> #[trigger] self.chain_ok(l)
        &&& forall|s: int| #[trigger] self.occupied(s) ==> self.node_ok(s)
        &&& forall|s: int| #[trigger] self.occupied(s) && s != p ==> self.complete(s)
        &&& p >= 0 ==> self.pending_ok(p, n)
    }

    /// The count is the number of keys, and `owed` more while a removal
    /// that has marked its node has yet to take the node off the count.
    /// The slots in use are those of the live nodes, of the removed nodes
    /// that are still linked, and of `extra` nodes that are being linked.
    spec fn counts_ok(self, extra: int, owed: int) -> bool {
        &&& self.state.len == self.index@.dom().len() + owed
        &&& self.index@.dom().len() + self.dead@.len() + extra == self.nodes.len()
            - self.free.len()
    }

    /// The invariant of the list between operations.
    pub closed spec fn wf(self) -> bool {
        self.inv_with(-1, 0) && self.counts_ok(0, 0)
    }

    /// The map that the list stands for: the entries of its live nodes.
    pub closed spec fn view(self) -> Map<K, V> {
        Map::new(|k: K| self.index@.dom().contains(k), |k: K| self.val_at(self.index@[k]))
    }

    /// The number of removed nodes that some level still holds.
    pub closed spec fn stale(self) -> nat {
        self.dead@.len()
    }

    /// The count that `len` reports: the number of entries. A removal
    /// takes its node off the count itself; an operation that only helps
    /// to unlink a removed node leaves the count alone.
    pub closed spec fn spec_len(self) -> nat {
        self.state.len as nat
    }

    /// The pseudo-random state that the next height is drawn from.
    pub closed spec fn seed(self) -> usize {
        self.state.seed
    }

    /// The largest height drawn so far, and 1 where none was.
    pub closed spec fn max_height(self) -> usize {
        self.state.max_height
    }

    /// An empty list, with a pseudo-random state drawn afresh: whatever
    /// state comes, the list is that of `with_seed` on it.
    pub fn new() -> (r: Self)
        requires
            total_order::<K>(),
        ensures
            r.wf(),
            r@ == Map::<K, V>::empty(),
            r.spec_len() == 0,
            r.stale() == 0,
            r.max_height() == 1,
    {
        Self::with_seed(random_seed())
    }

    /// An empty list whose heights are drawn from `seed` on.
    pub fn with_seed(seed: usize) -> (r: Self)
        requires
            total_order::<K>(),
        ensures
            r.wf(),
            r@ == Map::<K, V>::empty(),
            r.spec_len() == 0,
            r.stale() == 0,
            r.seed() == seed,
            r.max_height() == 1,
    {
        let mut head: Vec<MaybeTagged> = Vec::new();
        let mut i: usize = 0;
        while i < HEIGHT
            invariant
                i <= HEIGHT,
                head.len() == i,
                forall|j: int|
                    0 <= j < i ==> (#[trigger] head[j]).target() == NULL && head[j].mark() == 0,
            decreases HEIGHT - i,
        {
            head.push(MaybeTagged::null());
            i += 1;
        }
        let r = SkipList {
            head,
            nodes: Vec::new(),
            free: Vec::new(),
            state: ListState::with_seed(seed),
            chains: Ghost(Seq::new(HEIGHT as nat, |l: int| Seq::<int>::empty())),
            index: Ghost(Map::<K, int>::empty()),
            dead: Ghost(Set::<int>::empty()),
        };
        proof {
            assert forall|l: int| 0 <= l < HEIGHT implies #[trigger] r.chain_ok(l) by {
                assert(r.chain(l) =~= Seq::<int>::empty());
            }
            assert(r@ =~= Map::<K, V>::empty());
        }
        r
    }


    /// Reads the forward link of a tower at a level.
    fn load(&self, a: usize, l: usize) -> (r: (usize, usize))
        requires
            self.head.len() == HEIGHT,
            self.is_tower(a),
            l < self.tower_height(a),
        ensures
            r.0 == self.link(a, l as int).target(),
            r.1 == self.link(a, l as int).mark(),
    {
        if a == HEAD {
            self.head[l].load_decomposed()
        } else {
            let slot = a / 8 - 2;
            match &self.nodes[slot] {
                Some(n) => n.levels[l].load_decomposed(),
                None => (NULL, 0),
            }
        }
    }

    /// Replaces the untagged link of a tower at a level, which holds
    /// `expected`, by an untagged link to `new`.
    fn swing(&mut self, a: usize, l: usize, expected: usize, new: usize) -> (r: Result<
        (usize, usize),
        (usize, usize),
    >)
        requires
            old(self).head.len() == HEIGHT,
            old(self).is_tower(a),
            l < old(self).tower_height(a),
            old(self).link(a, l as int).target() == expected,
            old(self).link(a, l as int).mark() == 0,
            crate::tagged::aligned(new),
        ensures
            r is Ok,
            final(self).free == old(self).free,
            final(self).state == old(self).state,
            final(self).chains == old(self).chains,
            final(self).index == old(self).index,
            final(self).dead == old(self).dead,
            final(self).nodes.len() == old(self).nodes.len(),
            final(self).head.len() == old(self).head.len(),
            final(self).link(a, l as int).target() == new,
            final(self).link(a, l as int).mark() == 0,
            a == HEAD ==> final(self).nodes == old(self).nodes,
            a == HEAD ==> forall|j: int|
                0 <= j < HEIGHT && j != l ==> final(self).head[j] == old(self).head[j],
            a != HEAD ==> final(self).head == old(self).head,
            a != HEAD ==> forall|s: int|
                0 <= s < old(self).nodes.len() && s != slot_of(a) ==> final(self).nodes[s] == old(
                    self,
                ).nodes[s],
            a != HEAD ==> ({
                let before = old(self).node(slot_of(a));
                let after = final(self).node(slot_of(a));
                &&& final(self).occupied(slot_of(a))
                &&& after.data == before.data
                &&& after.height_and_removed == before.height_and_removed
                &&& after.refs == before.refs
                &&& after.levels.len() == before.levels.len()
                &&& forall|j: int|
                    0 <= j < before.levels.len() && j != l ==> after.levels[j] == before.levels[j]
            }),
    {
        proof {
            old(self).link(a, l as int).lemma_parts();
            crate::tagged::lemma_aligned(expected);
        }
        if a == HEAD {
            self.head[l].compare_exchange(expected, new)
        } else {
            let slot = a / 8 - 2;
            match &mut self.nodes[slot] {
                Some(n) => n.levels[l].compare_exchange(expected, new),
                None => Err((NULL, 0)),
            }
        }
    }

    /// Gives the slot of a node that no chain holds back to the arena.
    fn retire_node(&mut self, slot: usize)
        requires
            slot < old(self).nodes.len(),
        ensures
            final(self).head == old(self).head,
            final(self).state == old(self).state,
            final(self).chains == old(self).chains,
            final(self).index == old(self).index,
            final(self).dead == old(self).dead,
            final(self).nodes@ == old(self).nodes@.update(slot as int, None),
            final(self).free@ == old(self).free@.push(slot),
    {
        self.nodes[slot] = None;
        self.free.push(slot);
    }


    /// The position in the chain of a level that follows tower `a`.
    spec fn rank(self, a: usize, l: int) -> int {
        if a == HEAD {
            0
        } else {
            self.chain(l).index_of(slot_of(a)) + 1
        }
    }

    /// `post` differs from `self` at one level only: the live nodes are the
    /// same and hold the same entries, and away from `level` every chain and
    /// every link of the head and of the live nodes is as it was.
    spec fn same_except(self, post: Self, level: int) -> bool {
        &&& post.index@ == self.index@
        &&& post.state.max_height == self.state.max_height
        &&& post.state.seed == self.state.seed
        &&& post.nodes.len() == self.nodes.len()
        &&& post.head.len() == self.head.len()
        &&& forall|s: int| #[trigger] self.live(s) <==> post.live(s)
        &&& forall|s: int|
            #[trigger] self.live(s) ==> {
                &&& post.node(s).data == self.node(s).data
                &&& post.node(s).levels.len() == self.node(s).levels.len()
                &&& forall|l: int|
                    0 <= l < self.node(s).levels.len() && l != level ==> post.node(s).levels[l]
                        == self.node(s).levels[l]
            }
        &&& forall|l: int|
            0 <= l < HEIGHT && l != level ==> #[trigger] post.chain(l) == self.chain(l)
                && post.head[l] == self.head[l]
    }


    /// At level `l`, `pred` is a tower before `key`, the head or a live
    /// node, and `succ` is what its untagged link holds: nothing, or a live
    /// node that is not before `key`.
    pub open spec fn bracket(self, l: int, pred: usize, succ: usize, key: K) -> bool {
        &&& self.is_tower(pred)
        &&& 0 <= l < self.tower_height(pred)
        &&& pred != HEAD ==> self.names_live(pred) && lt(self.entry_at(pred).0, key)
        &&& self.link(pred, l).target() == succ
        &&& self.link(pred, l).mark() == 0
        &&& succ != NULL ==> self.names_live(succ) && !lt(self.entry_at(succ).0, key)
    }

    /// The address of the live node that holds `key`, if there is one.
    pub closed spec fn holder(self, key: K) -> Option<usize> {
        if self.index@.dom().contains(key) {
            Some(addr_of(self.index@[key]))
        } else {
            None
        }
    }

    /// `addr` names a live node of the list.
    pub closed spec fn names_live(self, addr: usize) -> bool {
        addr != HEAD && self.is_tower(addr) && self.live(slot_of(addr))
    }

    /// The entry of the node that `addr` names.
    pub closed spec fn entry_at(self, addr: usize) -> (K, V) {
        self.node(slot_of(addr)).data->Some_0
    }

    /// `r` is the outcome of a search for `key`: a bracket at every level,
    /// the successor at the bottom as target where the closest node at or
    /// after the key was asked for, else the live node that holds the key;
    /// a target that holds the key is the successor at every level of its
    /// tower.
    pub open spec fn found(self, r: SearchResult, key: K, closest: bool) -> bool {
        &&& r.prev.len() == HEIGHT
        &&& forall|l: int|
            0 <= l < HEIGHT ==> self.bracket(l, (#[trigger] r.prev[l]).0, r.prev[l].1, key)
        &&& closest ==> r.target == if r.prev[0].1 != NULL {
            Some(r.prev[0].1)
        } else {
            None
        }
        &&& !closest ==> r.target == self.holder(key)
        &&& self.holder(key) is Some ==> forall|l: int|
            0 <= l < self.tower_height(self.holder(key)->Some_0) ==> (#[trigger] r.prev[l]).1
                == self.holder(key)->Some_0
    }

    /// The key of the live node that `a` names.
    fn key_ref(&self, a: usize) -> (r: &K)
        requires
            self.names_live(a),
            self.node(slot_of(a)).data is Some,
        ensures
            *r == self.key_at(slot_of(a)),
    {
        let slot = a / 8 - 2;
        match &self.nodes[slot] {
            Some(n) => match &n.data {
                Some(kv) => &kv.0,
                None => vstd::pervasive::unreached(),
            },
            None => vstd::pervasive::unreached(),
        }
    }


    /// `post` holds every node of `self` unchanged, under the same head,
    /// chains and keys.
    spec fn same_nodes(self, post: Self) -> bool {
        &&& post.head@ == self.head@
        &&& post.chains@ == self.chains@
        &&& post.index@ == self.index@
        &&& post.dead@ == self.dead@
        &&& post.nodes.len() >= self.nodes.len()
        &&& forall|s: int| #[trigger] self.occupied(s) ==> post.nodes[s] == self.nodes[s]
    }

    /// `post` has the towers, the links and the keys of `self`; only values
    /// may differ.
    pub closed spec fn same_shape(self, post: Self) -> bool {
        &&& post.head@ == self.head@
        &&& post.chains@ == self.chains@
        &&& post.index@ == self.index@
        &&& post.dead@ == self.dead@
        &&& post.free@ == self.free@
        &&& post.state == self.state
        &&& post.nodes.len() == self.nodes.len()
        &&& forall|s: int|
            0 <= s < self.nodes.len() ==> {
                &&& (#[trigger] post.nodes[s]) is Some <==> self.nodes[s] is Some
                &&& self.nodes[s] is Some ==> {
                    let a = self.nodes[s]->Some_0;
                    let b = post.nodes[s]->Some_0;
                    &&& b.height_and_removed == a.height_and_removed
                    &&& b.refs == a.refs
                    &&& b.levels@ == a.levels@
                    &&& b.data is Some <==> a.data is Some
                    &&& a.data is Some ==> b.data->Some_0.0 == a.data->Some_0.0
                }
            }
    }

    /// The live node that follows the tower `a` at the bottom level, null
    /// where none does.
    pub closed spec fn after(self, a: usize) -> usize {
        link_at(self.chain(0), self.first_live(0, self.rank(a, 0)))
    }

    /// The links of the head tower, from the bottom level up.
    pub closed spec fn head_links(self) -> Seq<MaybeTagged> {
        self.head@
    }


    /// The number of levels of the node that `a` names.
    fn height_at(&self, a: usize) -> (r: usize)
        requires
            a != HEAD,
            self.is_tower(a),
        ensures
            r == self.node(slot_of(a)).height_spec(),
    {
        let slot = a / 8 - 2;
        match &self.nodes[slot] {
            Some(n) => n.height(),
            None => vstd::pervasive::unreached(),
        }
    }

    /// Whether the node that `a` names has been marked as removed.
    fn removed_at(&self, a: usize) -> (r: bool)
        requires
            a != HEAD,
            self.is_tower(a),
        ensures
            r == self.node(slot_of(a)).removed_spec(),
    {
        let slot = a / 8 - 2;
        match &self.nodes[slot] {
            Some(n) => n.removed(),
            None => vstd::pervasive::unreached(),
        }
    }


    /// The first position from `i` on at which the chain of a level holds a
    /// live node, and the length of the chain where there is none.
    spec fn first_live(self, l: int, i: int) -> int
        decreases self.chain(l).len() - i,
    {
        if i < 0 || i >= self.chain(l).len() {
            self.chain(l).len() as int
        } else if self.live(self.chain(l)[i]) {
            i
        } else {
            self.first_live(l, i + 1)
        }
    }

    /// A handle on the entry of the live node that `a` names.
    fn entry_ref(&self, a: usize) -> (r: Entry<'_, K, V>)
        requires
            self.wf(),
            self.names_live(a),
        ensures
            r@ == self.entry_at(a),
    {
        proof {
            assert(self.occupied(slot_of(a)));
            assert(self.node_ok(slot_of(a)));
        }
        let slot = a / 8 - 2;
        match &self.nodes[slot] {
            Some(n) => match &n.data {
                Some(kv) => Entry::from_raw(&kv.0, &kv.1),
                None => vstd::pervasive::unreached(),
            },
            None => vstd::pervasive::unreached(),
        }
    }

    /// The chain of level `l` holds the node that `a` names.
    pub closed spec fn linked_at(self, a: usize, l: int) -> bool {
        a != HEAD && a % 8 == 0 && a >= 16 && self.chain(l).contains(slot_of(a))
    }

    /// The number of entries.
    pub fn len(&self) -> (r: usize)
        ensures
            r == self.spec_len(),
    {
        self.state.len
    }

    /// The number of nodes in the arena: the live ones and the removed
    /// ones that some level still links.
    pub fn nodes_held(&self) -> (r: usize)
        requires
            self.wf(),
        ensures
            r == self.spec_len() + self.stale(),
    {
        self.nodes.len() - self.free.len()
    }

    /// Whether the list has no entry.
    pub fn is_empty(&self) -> (r: bool)
        ensures
            r == (self.spec_len() == 0),
    {
        self.state.len < 1
    }
}

} // verus!
