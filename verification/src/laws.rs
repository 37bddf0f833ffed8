//! What holds of the map across operations.
//!
//! Each law takes the states of a list before and after the operations it
//! speaks of, related as the operations' contracts relate them.

use vstd::prelude::*;
use crate::list::SkipList;
use crate::node::HEIGHT;

verus! {

/// What `insert` and `remove` hand back for a key: the entry that the map
/// held under it.
pub open spec fn taken<K, V>(m: Map<K, V>, key: K) -> Option<(K, V)> {
    if m.dom().contains(key) {
        Some((key, m[key]))
    } else {
        None
    }
}

/// After `insert(key, val)`, `get(key)` finds `val`.
pub proof fn law_insert_get<K: Ord, V>(
    before: SkipList<K, V>,
    after: SkipList<K, V>,
    key: K,
    val: V,
)
    requires
        before.wf(),
        after.wf(),
        after@ == before@.insert(key, val),
    ensures
        after@.dom().contains(key),
        after@[key] == val,
{
}

/// What `insert(key, val)` put in the map stays there through an insertion
/// or a removal under any other key.
pub proof fn law_insert_lasts<K: Ord, V>(
    before: SkipList<K, V>,
    after: SkipList<K, V>,
    key: K,
    val: V,
    other: K,
    other_val: V,
)
    requires
        before.wf(),
        after.wf(),
        before@.contains_pair(key, val),
        other != key,
        after@ == before@.insert(other, other_val) || after@ == before@.remove(other),
    ensures
        after@.contains_pair(key, val),
{
}

/// After `remove(key)`, `get(key)` finds nothing.
pub proof fn law_remove_get<K: Ord, V>(before: SkipList<K, V>, after: SkipList<K, V>, key: K)
    requires
        before.wf(),
        after.wf(),
        after@ == before@.remove(key),
    ensures
        !after@.dom().contains(key),
{
}

/// A removed key stays absent through an insertion or a removal under any
/// other key: only a later insertion under the key itself brings it back.
pub proof fn law_remove_lasts<K: Ord, V>(
    before: SkipList<K, V>,
    after: SkipList<K, V>,
    key: K,
    other: K,
    other_val: V,
)
    requires
        before.wf(),
        after.wf(),
        !before@.dom().contains(key),
        other != key,
        after@ == before@.insert(other, other_val) || after@ == before@.remove(other),
    ensures
        !after@.dom().contains(key),
{
}

/// Of two removals of one key only the first returns the entry; the second
/// returns nothing and leaves the map as it found it.
pub proof fn law_remove_once<K: Ord, V>(
    before: SkipList<K, V>,
    between: SkipList<K, V>,
    after: SkipList<K, V>,
    key: K,
)
    requires
        before.wf(),
        between.wf(),
        after.wf(),
        between@ == before@.remove(key),
        after@ == between@.remove(key),
    ensures
        taken(between@, key) is None,
        after@ == between@,
        !after@.dom().contains(key),
{
    assert(after@ =~= between@);
}

/// A second insertion under a key returns the entry of the first, and the
/// key then has the second value.
pub proof fn law_insert_replaces<K: Ord, V>(
    before: SkipList<K, V>,
    between: SkipList<K, V>,
    after: SkipList<K, V>,
    key: K,
    first: V,
    second: V,
)
    requires
        before.wf(),
        between.wf(),
        after.wf(),
        between@ == before@.insert(key, first),
        after@ == between@.insert(key, second),
    ensures
        taken(between@, key) == Some((key, first)),
        after@.dom().contains(key),
        after@[key] == second,
        after@.dom() == between@.dom(),
{
    assert(after@.dom() =~= between@.dom());
}

/// After `insert(key, val)` the keys are the keys from before and `key`,
/// and every key, `key` too, is the key of one live node only.
pub proof fn law_insert_keys<K: Ord, V>(
    before: SkipList<K, V>,
    after: SkipList<K, V>,
    key: K,
    val: V,
    a: usize,
    b: usize,
)
    requires
        before.wf(),
        after.wf(),
        after@ == before@.insert(key, val),
        after.names_live(a),
        after.names_live(b),
        after.entry_at(a).0 == after.entry_at(b).0,
    ensures
        after@.dom() == before@.dom().insert(key),
        a == b,
{
    assert(after@.dom() =~= before@.dom().insert(key));
    after.lemma_unique_keys(a, b);
}

/// Whatever a level links is a node with a tower of 1 to 32 levels that
/// reaches above that level, and no height drawn so far is above 32.
pub proof fn law_heights<K: Ord, V>(list: SkipList<K, V>, a: usize, l: int)
    requires
        list.wf(),
        0 <= l < HEIGHT,
        list.linked_at(a, l),
    ensures
        list.is_tower(a),
        l < list.tower_height(a),
        1 <= list.tower_height(a) <= list.max_height(),
        list.max_height() <= HEIGHT,
{
    list.lemma_linked_tower(a, l);
    list.lemma_heights(a);
}

/// The count of a list is the number of its keys, whatever removed nodes
/// are still linked; the count of an empty one is zero.
pub proof fn law_len<K: Ord, V>(list: SkipList<K, V>)
    requires
        list.wf(),
    ensures
        list.spec_len() == list@.dom().len(),
        list@ == Map::<K, V>::empty() ==> list.spec_len() == 0,
{
    list.lemma_len();
}

} // verus!
