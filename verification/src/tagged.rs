//! Tagged link words.
//!
//! A link names a node by its address and carries a small tag in the low bits
//! that the alignment of node addresses leaves unused. A tag of 1 on a forward
//! link freezes that level of its node: the node is being unlinked there.

use vstd::prelude::*;

verus! {

/// Alignment of every node address in an arena: addresses are handed out
/// in steps of this size, whatever the node type.
pub const ALIGN: usize = 8;

/// Number of low bits of an address that are always zero.
pub const TAG_BITS: u32 = 3;

/// The address that names no node.
pub const NULL: usize = 0;

/// The bits of a word that hold the address.
pub open spec fn clear_tag(raw: usize) -> usize {
    raw & !7usize
}

/// The bits of a word that hold the tag.
pub open spec fn tag_of(raw: usize) -> usize {
    raw & 7usize
}

/// The word that holds the address bits of `ptr` and the tag bits of `tag`.
pub open spec fn compose(ptr: usize, tag: usize) -> usize {
    clear_tag(ptr) | tag_of(tag)
}

/// An address with all tag bits clear.
pub open spec fn aligned(ptr: usize) -> bool {
    ptr % 8 == 0
}

/// An aligned address is its own address part and has an empty tag part.
pub proof fn lemma_aligned(ptr: usize)
    requires
        aligned(ptr),
    ensures
        clear_tag(ptr) == ptr,
        tag_of(ptr) == 0,
{
    assert(ptr % 8 == 0 ==> ptr & !7usize == ptr && ptr & 7usize == 0) by (bit_vector);
}

/// A tag that fits in the unused bits is its own tag part.
pub proof fn lemma_small_tag(tag: usize)
    requires
        tag < 8,
    ensures
        tag_of(tag) == tag,
        clear_tag(tag) == 0,
{
    assert(tag < 8 ==> tag & 7usize == tag && tag & !7usize == 0) by (bit_vector);
}

/// Taking a composed word apart gives back the address part of the pointer
/// and the tag part of the tag; both parts are stable under taking them again.
pub proof fn lemma_compose(ptr: usize, tag: usize)
    ensures
        clear_tag(compose(ptr, tag)) == clear_tag(ptr),
        tag_of(compose(ptr, tag)) == tag_of(tag),
        clear_tag(clear_tag(ptr)) == clear_tag(ptr),
        tag_of(tag_of(tag)) == tag_of(tag),
        aligned(clear_tag(ptr)),
        tag_of(tag) < 8,
{
    assert(((ptr & !7usize) | (tag & 7usize)) & !7usize == ptr & !7usize) by (bit_vector);
    assert(((ptr & !7usize) | (tag & 7usize)) & 7usize == tag & 7usize) by (bit_vector);
    assert((ptr & !7usize) & !7usize == ptr & !7usize) by (bit_vector);
    assert((tag & 7usize) & 7usize == tag & 7usize) by (bit_vector);
    assert((ptr & !7usize) % 8 == 0) by (bit_vector);
    assert(tag & 7usize < 8) by (bit_vector);
}

/// The alignment of `T`.
pub fn align<T>() -> (r: usize)
    ensures
        r == vstd::layout::align_of::<T>(),
        r >= 1,
{
    broadcast use vstd::layout::align_nonzero;

    core::mem::align_of::<T>()
}

/// Mask of the low bits that the alignment of `T` leaves free for a tag in
/// the address of a `T`: one less than the alignment, which is a power of
/// two.
pub fn unused_bits<T>() -> (r: usize)
    ensures
        r == vstd::layout::align_of::<T>() - 1,
{
    align::<T>() - 1
}

/// Mask of the low bits that the alignment of node addresses leaves free.
fn tag_mask() -> (r: usize)
    ensures
        r == 7,
        r == ALIGN - 1,
{
    assert(1usize << 3u32 == 8) by (bit_vector);
    (1usize << TAG_BITS) - 1
}

/// One forward link: an address and a tag packed in a word.
#[derive(Clone, Copy, Debug, PartialEq, Eq)]
pub struct MaybeTagged {
    raw: usize,
}

impl MaybeTagged {
    /// The address this link holds.
    pub closed spec fn target(self) -> usize {
        clear_tag(self.raw)
    }

    /// The tag this link holds.
    pub closed spec fn mark(self) -> usize {
        tag_of(self.raw)
    }

    /// The address part of a link is aligned, its tag part fits in the
    /// unused bits, and the two parts determine the link.
    pub proof fn lemma_parts(self)
        ensures
            aligned(self.target()),
            self.mark() < 8,
            clear_tag(self.target()) == self.target(),
            tag_of(self.mark()) == self.mark(),
    {
        lemma_compose(self.raw, self.raw);
    }

    /// An untagged link to no node.
    pub fn null() -> (r: MaybeTagged)
        ensures
            r.target() == NULL,
            r.mark() == 0,
    {
        assert(0usize & !7usize == 0 && 0usize & 7usize == 0) by (bit_vector);
        MaybeTagged { raw: 0 }
    }

    /// Splits a word into its address and its tag.
    pub fn decompose_raw(raw: usize) -> (r: (usize, usize))
        ensures
            r.0 == clear_tag(raw),
            r.1 == tag_of(raw),
    {
        let mask = tag_mask();
        (raw & !mask, raw & mask)
    }

    /// Packs the address bits of `ptr` and the tag bits of `tag` in one word.
    pub fn compose_raw(ptr: usize, tag: usize) -> (r: usize)
        ensures
            r == compose(ptr, tag),
    {
        let mask = tag_mask();
        (ptr & !mask) | (tag & mask)
    }

    /// Reads address and tag.
    pub fn load_decomposed(&self) -> (r: (usize, usize))
        ensures
            r.0 == self.target(),
            r.1 == self.mark(),
    {
        Self::decompose_raw(self.raw)
    }

    /// Reads the address.
    pub fn load_ptr(&self) -> (r: usize)
        ensures
            r == self.target(),
    {
        self.load_decomposed().0
    }

    /// Reads the tag.
    pub fn load_tag(&self) -> (r: usize)
        ensures
            r == self.mark(),
    {
        self.load_decomposed().1
    }

    /// Writes address and tag.
    pub fn store_composed(&mut self, ptr: usize, tag: usize)
        ensures
            final(self).target() == clear_tag(ptr),
            final(self).mark() == tag_of(tag),
            aligned(ptr) ==> final(self).target() == ptr,
            tag < 8 ==> final(self).mark() == tag,
    {
        proof {
            lemma_compose(ptr, tag);
            if aligned(ptr) {
                lemma_aligned(ptr);
            }
            if tag < 8 {
                lemma_small_tag(tag);
            }
        }
        self.raw = Self::compose_raw(ptr, tag);
    }

    /// Writes an address with an empty tag.
    pub fn store_ptr(&mut self, ptr: usize)
        ensures
            final(self).target() == clear_tag(ptr),
            final(self).mark() == 0,
            aligned(ptr) ==> final(self).target() == ptr,
    {
        self.store_composed(ptr, 0);
    }

    /// Replaces an untagged `expected` by an untagged `new`.
    ///
    /// Succeeds exactly when the link holds the address part of `expected`
    /// with an empty tag; either way the result is what the link held.
    pub fn compare_exchange(&mut self, expected: usize, new: usize) -> (r: Result<
        (usize, usize),
        (usize, usize),
    >)
        ensures
            r is Ok <==> (old(self).target() == clear_tag(expected) && old(self).mark() == 0),
            r is Ok ==> r->Ok_0 == (old(self).target(), old(self).mark()),
            r is Ok ==> final(self).target() == clear_tag(new) && final(self).mark() == 0,
            r is Ok && aligned(new) ==> final(self).target() == new,
            r is Err ==> r->Err_0 == (old(self).target(), old(self).mark()),
            r is Err ==> *final(self) == *old(self),
    {
        proof {
            lemma_small_tag(0);
        }
        self.compare_exchange_with_tag(expected, 0, new, 0)
    }

    /// Replaces `expected` tagged `e_tag` by `new` tagged `n_tag`.
    ///
    /// Succeeds exactly when the link holds the address part of `expected`
    /// and the tag part of `e_tag`; either way the result is what the link
    /// held. On failure the link is unchanged.
    pub fn compare_exchange_with_tag(
        &mut self,
        expected: usize,
        e_tag: usize,
        new: usize,
        n_tag: usize,
    ) -> (r: Result<(usize, usize), (usize, usize)>)
        ensures
            r is Ok <==> (old(self).target() == clear_tag(expected) && old(self).mark() == tag_of(e_tag)),
            r is Ok ==> r->Ok_0 == (old(self).target(), old(self).mark()),
            r is Ok ==> final(self).target() == clear_tag(new) && final(self).mark() == tag_of(n_tag),
            r is Ok && aligned(new) ==> final(self).target() == new,
            r is Ok && n_tag < 8 ==> final(self).mark() == n_tag,
            r is Err ==> r->Err_0 == (old(self).target(), old(self).mark()),
            r is Err ==> *final(self) == *old(self),
    {
        let want = Self::compose_raw(expected, e_tag);
        let next = Self::compose_raw(new, n_tag);
        proof {
            lemma_compose(expected, e_tag);
            lemma_compose(new, n_tag);
            if aligned(new) {
                lemma_aligned(new);
            }
            if n_tag < 8 {
                lemma_small_tag(n_tag);
            }
            let a = self.raw;
            assert((a & !7usize == want & !7usize && a & 7usize == want & 7usize) ==> a == want)
                by (bit_vector);
        }
        let seen = self.raw;
        if seen == want {
            self.raw = next;
            Ok(Self::decompose_raw(seen))
        } else {
            Err(Self::decompose_raw(seen))
        }
    }

    /// Sets the tag and keeps the address, whatever the link held.
    pub fn tag(&mut self, tag: usize)
        ensures
            final(self).target() == old(self).target(),
            final(self).mark() == tag_of(tag),
            tag < 8 ==> final(self).mark() == tag,
    {
        let (mut old_ptr, mut old_tag) = self.load_decomposed();
        proof {
            self.lemma_parts();
            if tag < 8 {
                lemma_small_tag(tag);
            }
        }
        loop
            invariant_except_break
                *self == *old(self),
                old_ptr == self.target(),
                old_tag == self.mark(),
                clear_tag(old_ptr) == old_ptr,
                tag_of(old_tag) == old_tag,
            invariant
                tag < 8 ==> tag_of(tag) == tag,
            ensures
                self.target() == old(self).target(),
                self.mark() == tag_of(tag),
            decreases 0int,
        {
            match self.compare_exchange_with_tag(old_ptr, old_tag, old_ptr, tag) {
                Ok(_) => {
                    break ;
                },
                Err((other_ptr, other_tag)) => {
                    old_ptr = other_ptr;
                    old_tag = other_tag;
                    proof {
                        assert(false);
                    }
                },
            }
        }
    }

    /// Sets the tag if the link holds the address part of `expected`.
    ///
    /// The result is the address the link held, as `Ok` when the tag was
    /// set and as `Err` when the link held another address and is unchanged.
    pub fn try_tag(&mut self, expected: usize, tag: usize) -> (r: Result<usize, usize>)
        ensures
            r is Ok <==> old(self).target() == clear_tag(expected),
            r is Ok ==> r->Ok_0 == old(self).target() && final(self).target() == old(self).target()
                && final(self).mark() == tag_of(tag),
            r is Err ==> r->Err_0 == old(self).target() && *final(self) == *old(self),
    {
        let old_tag = self.load_tag();
        proof {
            self.lemma_parts();
            lemma_compose(expected, tag);
        }
        match self.compare_exchange_with_tag(expected, old_tag, expected, tag) {
            Ok(seen) => Ok(seen.0),
            Err(seen) => Err(seen.0),
        }
    }

    /// Replaces the tag `e_tag` by `tag` and keeps the address.
    ///
    /// Succeeds with `tag` exactly when the link is tagged with the tag
    /// part of `e_tag`; otherwise the result is the tag the link holds, and
    /// the link is unchanged.
    pub fn compare_exchange_tag(&mut self, e_tag: usize, tag: usize) -> (r: Result<usize, usize>)
        ensures
            r is Ok <==> old(self).mark() == tag_of(e_tag),
            r is Ok ==> r->Ok_0 == tag && final(self).target() == old(self).target() && final(self).mark() == tag_of(tag),
            r is Ok && tag < 8 ==> final(self).mark() == tag,
            r is Err ==> r->Err_0 == old(self).mark() && *final(self) == *old(self),
    {
        let mut ptr = self.load_ptr();
        proof {
            self.lemma_parts();
            if tag < 8 {
                lemma_small_tag(tag);
            }
        }
        loop
            invariant
                *self == *old(self),
                ptr == self.target(),
                clear_tag(ptr) == ptr,
                tag < 8 ==> tag_of(tag) == tag,
            decreases 0int,
        {
            match self.compare_exchange_with_tag(ptr, e_tag, ptr, tag) {
                Ok(_) => {
                    return Ok(tag);
                },
                Err((other_ptr, other_tag)) => {
                    if other_tag != e_tag {
                        return Err(other_tag);
                    }
                    proof {
                        self.lemma_parts();
                        lemma_small_tag(e_tag);
                        assert(false);
                    }
                    ptr = other_ptr;
                },
            }
        }
    }
}

} // verus!
