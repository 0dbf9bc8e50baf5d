//! The boundary tag: one packed 4-byte word describing a block.
//!
//! The two low bits of the word are always free for flags because a block's
//! usable size is kept 4-byte aligned: bit 0 says whether the block is free,
//! bit 1 (the guard flag) says that the tag sits at an edge of the whole
//! managed extent, and the remaining bits hold `size >> 2`.

use vstd::prelude::*;
use crate::MAX_EXTENT;

verus! {

/// Usable size encoded in a tag word: the word with both flag bits masked.
pub open spec fn t_size(w: u32) -> int {
    (w & 0xFFFF_FFFCu32) as int
}

/// Free flag of a tag word (bit 0).
pub open spec fn t_free(w: u32) -> bool {
    w & 1u32 == 1u32
}

/// Guard flag of a tag word (bit 1): set only at an edge of the extent.
pub open spec fn t_guard(w: u32) -> bool {
    w & 2u32 == 2u32
}

/// A packed boundary tag word, kept at both ends of every block.
#[derive(Clone, Copy, Debug)]
pub struct BoundaryTag {
    bitfield: u32,
}

/// The size field of any tag word is a 4-byte-aligned value below 2^32.
pub broadcast proof fn lemma_tag_size_bounds(t: BoundaryTag)
    ensures
        0 <= #[trigger] t.spec_size() <= 0xFFFF_FFFC,
        t.spec_size() % 4 == 0,
{
    let w = t.bitfield;
    assert(w & 0xFFFF_FFFCu32 <= 0xFFFF_FFFCu32 && (w & 0xFFFF_FFFCu32) % 4 == 0)
        by (bit_vector);
}

/// The size field of any raw tag word is a 4-byte-aligned value below 2^32.
pub broadcast proof fn lemma_t_size_bounds(w: u32)
    ensures
        0 <= #[trigger] t_size(w) <= 0xFFFF_FFFC,
        t_size(w) % 4 == 0,
{
    assert(w & 0xFFFF_FFFCu32 <= 0xFFFF_FFFCu32 && (w & 0xFFFF_FFFCu32) % 4 == 0)
        by (bit_vector);
}

impl BoundaryTag {
    /// Size encoded in this tag.
    pub closed spec fn spec_size(self) -> int {
        t_size(self.bitfield)
    }

    /// Free flag of this tag.
    pub closed spec fn spec_free(self) -> bool {
        t_free(self.bitfield)
    }

    /// Guard flag of this tag.
    pub closed spec fn spec_guard(self) -> bool {
        t_guard(self.bitfield)
    }

    /// The packed word itself.
    pub closed spec fn spec_word(self) -> u32 {
        self.bitfield
    }

    /// A fresh tag of an empty free block: size 0, free, no guard.
    pub fn new() -> (r: BoundaryTag)
        ensures
            r.spec_size() == 0,
            r.spec_free(),
            !r.spec_guard(),
    {
        let r = BoundaryTag { bitfield: 0b01 };
        proof {
            assert(t_size(0b01u32) == 0 && t_free(0b01u32) && !t_guard(0b01u32)) by (bit_vector);
        }
        r
    }

    /// Rebuilds a tag from a raw word read out of the extent.
    pub fn from_word(w: u32) -> (r: BoundaryTag)
        ensures
            r.spec_word() == w,
            r.spec_size() == t_size(w),
            r.spec_free() == t_free(w),
            r.spec_guard() == t_guard(w),
    {
        BoundaryTag { bitfield: w }
    }

    /// The raw word of this tag, as written into the extent.
    pub fn to_word(&self) -> (w: u32)
        ensures
            w == self.spec_word(),
            t_size(w) == self.spec_size(),
            t_free(w) == self.spec_free(),
            t_guard(w) == self.spec_guard(),
    {
        self.bitfield
    }

    /// Sets size and both flags at once.
    pub fn init(&mut self, size: usize, free: bool, guard: bool)
        requires
            size % 4 == 0,
            size <= MAX_EXTENT,
        ensures
            final(self).spec_size() == size,
            final(self).spec_free() == free,
            final(self).spec_guard() == guard,
    {
        self.set_size(size);
        self.set_free(free);
        self.set_guard(guard);
    }

    /// Whether the block this tag bounds is free.
    pub fn is_free(&self) -> (r: bool)
        ensures
            r == self.spec_free(),
    {
        self.bitfield & 1 == 1
    }

    /// Marks the block free or occupied.
    pub fn set_free(&mut self, free: bool)
        ensures
            final(self).spec_free() == free,
            final(self).spec_size() == old(self).spec_size(),
            final(self).spec_guard() == old(self).spec_guard(),
    {
        let b = self.bitfield;
        if free {
            self.bitfield = b | 1;
            proof {
                assert(t_free(b | 1u32) && t_size(b | 1u32) == t_size(b)
                    && t_guard(b | 1u32) == t_guard(b)) by (bit_vector);
            }
        } else {
            self.bitfield = b & !1u32;
            proof {
                assert(!t_free(b & !1u32) && t_size(b & !1u32) == t_size(b)
                    && t_guard(b & !1u32) == t_guard(b)) by (bit_vector);
            }
        }
    }

    /// Usable size of the block this tag bounds.
    pub fn size(&self) -> (r: usize)
        ensures
            r == self.spec_size(),
    {
        let b = self.bitfield;
        let r = (b & 0xFFFF_FFFC) as usize;
        proof {
            assert(b & 0xFFFF_FFFCu32 <= 0xFFFF_FFFCu32) by (bit_vector);
        }
        r
    }

    /// Stores a new usable size, leaving both flags unchanged.
    pub fn set_size(&mut self, size: usize)
        requires
            size % 4 == 0,
            size <= MAX_EXTENT,
        ensures
            final(self).spec_size() == size,
            final(self).spec_free() == old(self).spec_free(),
            final(self).spec_guard() == old(self).spec_guard(),
    {
        let b = self.bitfield;
        let s = size as u32;
        self.bitfield = (b & 0b11) | s;
        proof {
            assert(s == size);
            assert(s % 4 == 0);
            assert(t_size((b & 0b11u32) | s) == s && t_free((b & 0b11u32) | s) == t_free(b)
                && t_guard((b & 0b11u32) | s) == t_guard(b)) by (bit_vector)
                requires s % 4 == 0u32;
        }
    }

    /// Whether this tag marks an edge of the managed extent.
    pub fn is_guard(&self) -> (r: bool)
        ensures
            r == self.spec_guard(),
    {
        self.bitfield & 2 == 2
    }

    /// Sets or clears the guard flag.
    pub fn set_guard(&mut self, guard: bool)
        ensures
            final(self).spec_guard() == guard,
            final(self).spec_size() == old(self).spec_size(),
            final(self).spec_free() == old(self).spec_free(),
    {
        let b = self.bitfield;
        if guard {
            self.bitfield = b | 2;
            proof {
                assert(t_guard(b | 2u32) && t_size(b | 2u32) == t_size(b)
                    && t_free(b | 2u32) == t_free(b)) by (bit_vector);
            }
        } else {
            self.bitfield = b & !2u32;
            proof {
                assert(!t_guard(b & !2u32) && t_size(b & !2u32) == t_size(b)
                    && t_free(b & !2u32) == t_free(b)) by (bit_vector);
            }
        }
    }
}

} // verus!
