//! Node storage: an entry, a packed word of height and removal flag, a count
//! of the levels at which the node is linked, and one forward link per level.

use vstd::prelude::*;
use crate::tagged::MaybeTagged;
use crate::tagged::NULL;
use crate::tagged::tag_of;

verus! {

/// Number of bits that count the levels.
pub const HEIGHT_BITS: usize = 5;

/// Largest number of forward links a node may own.
pub const HEIGHT: usize = 32;

/// The bit of the packed word that marks a node as removed.
pub const REMOVED_MASK: u32 = 0x8000_0000;

/// The height held in a packed word.
pub open spec fn height_of(meta: u32) -> usize {
    (meta & 0x7fff_ffffu32) as usize
}

/// The removal flag held in a packed word.
pub open spec fn removed_of(meta: u32) -> bool {
    meta & 0x8000_0000u32 != 0
}

/// A node of the list.
///
/// The entry is present from creation until a removal takes it out; the
/// tower of links stays readable after that, until the node is unlinked at
/// every level.
pub struct Node<K, V> {
    pub data: Option<(K, V)>,
    pub height_and_removed: u32,
    pub refs: usize,
    pub levels: Vec<MaybeTagged>,
}

impl<K, V> Node<K, V> {
    /// Number of levels the node takes part in.
    pub open spec fn height_spec(self) -> usize {
        height_of(self.height_and_removed)
    }

    /// Whether the node has been logically removed.
    pub open spec fn removed_spec(self) -> bool {
        removed_of(self.height_and_removed)
    }

    /// The height fits the tower that was allocated, and the tower fits the
    /// largest height there is.
    pub open spec fn wf(self) -> bool {
        self.height_spec() <= self.levels.len() <= HEIGHT
    }

    /// Every level below the height holds an empty tag.
    pub open spec fn untagged(self) -> bool {
        forall|i: int| 0 <= i < self.height_spec() ==> (#[trigger] self.levels[i]).mark() == 0
    }

    /// A fresh node of the given height: not removed, linked nowhere, every
    /// forward link null and untagged.
    pub fn new(key: K, val: V, height: usize) -> (r: Self)
        requires
            1 <= height <= HEIGHT,
        ensures
            r.data == Some((key, val)),
            r.height_spec() == height,
            !r.removed_spec(),
            r.refs == 0,
            r.levels.len() == height,
            forall|i: int|
                0 <= i < height ==> (#[trigger] r.levels[i]).target() == NULL && r.levels[i].mark()
                    == 0,
            r.wf(),
    {
        let mut levels: Vec<MaybeTagged> = Vec::new();
        let mut i: usize = 0;
        while i < height
            invariant
                i <= height,
                levels.len() == i,
                forall|j: int|
                    0 <= j < i ==> (#[trigger] levels[j]).target() == NULL && levels[j].mark() == 0,
            decreases height - i,
        {
            levels.push(MaybeTagged::null());
            i += 1;
        }
        let meta = height as u32;
        assert(meta <= 32 ==> (meta & 0x7fff_ffffu32) == meta && meta & 0x8000_0000u32 == 0)
            by (bit_vector);
        Node { data: Some((key, val)), height_and_removed: meta, refs: 0, levels }
    }

    /// Number of levels the node takes part in.
    pub fn height(&self) -> (r: usize)
        ensures
            r == self.height_spec(),
    {
        assert(0xffff_ffffu32 ^ 0x8000_0000u32 == 0x7fff_ffffu32) by (bit_vector);
        (self.height_and_removed & (u32::MAX ^ REMOVED_MASK)) as usize
    }

    /// Whether the node has been logically removed.
    pub fn removed(&self) -> (r: bool)
        ensures
            r == self.removed_spec(),
    {
        self.height_and_removed & REMOVED_MASK != 0
    }

    /// The key, while the entry is still in the node.
    pub fn key(&self) -> (r: Option<&K>)
        ensures
            r is Some <==> self.data is Some,
            r is Some ==> *r->Some_0 == self.data->Some_0.0,
    {
        match &self.data {
            Some(kv) => Some(&kv.0),
            None => None,
        }
    }

    /// The value, while the entry is still in the node.
    pub fn val(&self) -> (r: Option<&V>)
        ensures
            r is Some <==> self.data is Some,
            r is Some ==> *r->Some_0 == self.data->Some_0.1,
    {
        match &self.data {
            Some(kv) => Some(&kv.1),
            None => None,
        }
    }

    /// Marks the node as removed.
    ///
    /// Only the first call on a node succeeds; it returns the packed word as
    /// it was. A later call finds the flag set, fails, and changes nothing.
    pub fn set_removed(&mut self) -> (r: Result<u32, ()>)
        ensures
            r is Ok <==> !old(self).removed_spec(),
            r is Ok ==> r->Ok_0 == old(self).height_and_removed,
            final(self).removed_spec(),
            final(self).height_spec() == old(self).height_spec(),
            final(self).data == old(self).data,
            final(self).refs == old(self).refs,
            final(self).levels == old(self).levels,
            r is Err ==> *final(self) == *old(self),
    {
        let seen = self.height_and_removed;
        if seen & REMOVED_MASK != 0 {
            return Err(());
        }
        assert((seen | 0x8000_0000u32) & 0x7fff_ffffu32 == seen & 0x7fff_ffffu32
            && (seen | 0x8000_0000u32) & 0x8000_0000u32 != 0) by (bit_vector);
        self.height_and_removed = seen | REMOVED_MASK;
        Ok(seen)
    }

    /// Lowers the height and keeps the removal flag.
    pub fn set_height(&mut self, height: usize)
        requires
            height <= old(self).height_spec(),
        ensures
            final(self).height_spec() == height,
            final(self).removed_spec() == old(self).removed_spec(),
            final(self).data == old(self).data,
            final(self).refs == old(self).refs,
            final(self).levels == old(self).levels,
    {
        let seen = self.height_and_removed;
        let h = height as u32;
        assert((seen & 0x7fff_ffffu32) <= 0x7fff_ffffu32) by (bit_vector);
        assert(h <= 0x7fff_ffffu32 ==> ((seen & 0x8000_0000u32) | h) & 0x7fff_ffffu32 == h && ((((
        seen & 0x8000_0000u32) | h) & 0x8000_0000u32 != 0) <==> (seen & 0x8000_0000u32 != 0)))
            by (bit_vector);
        self.height_and_removed = (seen & REMOVED_MASK) | h;
    }

    /// Counts one more level at which the node is linked.
    pub fn add_ref(&mut self) -> (r: usize)
        requires
            old(self).refs < usize::MAX,
        ensures
            r == old(self).refs + 1,
            final(self).refs == r,
            final(self).data == old(self).data,
            final(self).height_and_removed == old(self).height_and_removed,
            final(self).levels == old(self).levels,
    {
        self.refs = self.refs + 1;
        self.refs
    }

    /// Counts one level less; the result is the count that is left.
    pub fn sub_ref(&mut self) -> (r: usize)
        requires
            old(self).refs > 0,
        ensures
            r == old(self).refs - 1,
            final(self).refs == r,
            final(self).data == old(self).data,
            final(self).height_and_removed == old(self).height_and_removed,
            final(self).levels == old(self).levels,
    {
        self.refs = self.refs - 1;
        self.refs
    }

    /// Counts one more level, unless the node is linked nowhere: a node that
    /// every level has let go is not taken up again.
    pub fn try_add_ref(&mut self) -> (r: Result<usize, ()>)
        requires
            old(self).refs < usize::MAX,
        ensures
            r is Ok <==> old(self).refs > 0,
            r is Ok ==> r->Ok_0 == old(self).refs + 1 && final(self).refs == old(self).refs + 1,
            r is Err ==> final(self).refs == old(self).refs,
            final(self).data == old(self).data,
            final(self).height_and_removed == old(self).height_and_removed,
            final(self).levels == old(self).levels,
    {
        if self.refs == 0 {
            Err(())
        } else {
            self.refs = self.refs + 1;
            Ok(self.refs)
        }
    }

    /// Counts one level less, unless no level is counted.
    pub fn try_sub_ref(&mut self) -> (r: Result<usize, ()>)
        ensures
            r is Ok <==> old(self).refs > 0,
            r is Ok ==> r->Ok_0 == old(self).refs - 1 && final(self).refs == old(self).refs - 1,
            r is Err ==> final(self).refs == old(self).refs,
            final(self).data == old(self).data,
            final(self).height_and_removed == old(self).height_and_removed,
            final(self).levels == old(self).levels,
    {
        if self.refs == 0 {
            Err(())
        } else {
            self.refs = self.refs - 1;
            Ok(self.refs)
        }
    }

    /// Freezes the levels from the bottom up by replacing an empty tag with
    /// `tag`, and stops at the first level that already holds a tag.
    ///
    /// Succeeds exactly when no level below the height held a tag. On
    /// failure the result is the level that did; the levels under it are
    /// frozen, that level and those above are as they were.
    pub fn tag_levels(&mut self, tag: usize) -> (r: Result<(), usize>)
        requires
            old(self).wf(),
        ensures
            r is Ok <==> old(self).untagged(),
            final(self).data == old(self).data,
            final(self).height_and_removed == old(self).height_and_removed,
            final(self).refs == old(self).refs,
            final(self).levels.len() == old(self).levels.len(),
            forall|i: int|
                0 <= i < old(self).levels.len() ==> (#[trigger] final(self).levels[i]).target()
                    == old(self).levels[i].target(),
            r is Ok ==> forall|i: int|
                0 <= i < old(self).height_spec() ==> (#[trigger] final(self).levels[i]).mark()
                    == tag_of(tag),
            r is Ok ==> forall|i: int|
                old(self).height_spec() <= i < old(self).levels.len() ==> final(self).levels[i]
                    == old(self).levels[i],
            r is Err ==> ({
                let e = r->Err_0 as int;
                &&& 0 <= e < old(self).height_spec()
                &&& old(self).levels[e].mark() != 0
                &&& forall|i: int| 0 <= i < e ==> (#[trigger] old(self).levels[i]).mark() == 0
                &&& forall|i: int|
                    0 <= i < e ==> (#[trigger] final(self).levels[i]).mark() == tag_of(tag)
                &&& forall|i: int|
                    e <= i < old(self).levels.len() ==> final(self).levels[i] == old(
                        self,
                    ).levels[i]
            }),
    {
        let height = self.height();
        let mut i: usize = 0;
        while i < height
            invariant
                i <= height,
                height == old(self).height_spec(),
                height <= old(self).levels.len(),
                self.data == old(self).data,
                self.height_and_removed == old(self).height_and_removed,
                self.refs == old(self).refs,
                self.levels.len() == old(self).levels.len(),
                forall|j: int|
                    0 <= j < old(self).levels.len() ==> (#[trigger] self.levels[j]).target() == old(
                        self,
                    ).levels[j].target(),
                forall|j: int| 0 <= j < i ==> (#[trigger] old(self).levels[j]).mark() == 0,
                forall|j: int| 0 <= j < i ==> (#[trigger] self.levels[j]).mark() == tag_of(tag),
                forall|j: int|
                    i <= j < old(self).levels.len() ==> self.levels[j] == old(self).levels[j],
            decreases height - i,
        {
            let res = self.levels[i].compare_exchange_tag(0, tag);
            proof {
                crate::tagged::lemma_small_tag(0);
            }
            if res.is_err() {
                return Err(i);
            }
            i += 1;
        }
        Ok(())
    }

    /// The first phase of a removal: marks the node as removed, takes the
    /// entry out and freezes every level.
    ///
    /// Succeeds exactly when the node was not yet marked; a later call fails
    /// and changes nothing.
    pub fn try_remove_and_tag(&mut self) -> (r: Result<(K, V), ()>)
        requires
            old(self).wf(),
            !old(self).removed_spec() ==> old(self).data is Some && old(self).untagged(),
        ensures
            r is Ok <==> !old(self).removed_spec(),
            r is Err ==> *final(self) == *old(self),
            r is Ok ==> ({
                &&& r->Ok_0 == old(self).data->Some_0
                &&& final(self).data is None
                &&& final(self).removed_spec()
                &&& final(self).height_spec() == old(self).height_spec()
                &&& final(self).refs == old(self).refs
                &&& final(self).levels.len() == old(self).levels.len()
                &&& forall|i: int|
                    0 <= i < old(self).levels.len() ==> (#[trigger] final(self).levels[i]).target()
                        == old(self).levels[i].target()
                &&& forall|i: int|
                    0 <= i < old(self).height_spec() ==> (#[trigger] final(self).levels[i]).mark()
                        == 1
            }),
    {
        if self.set_removed().is_err() {
            return Err(());
        }
        let entry = self.data.take();
        let tagged = self.tag_levels(1);
        proof {
            crate::tagged::lemma_small_tag(1);
            assert(tagged is Ok);
        }
        match entry {
            Some(kv) => Ok(kv),
            None => Err(()),
        }
    }
}

} // verus!
