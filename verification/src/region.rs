//! The header of a memory block: a boundary tag plus the two free-list
//! links that a free block keeps in its first bytes.
//!
//! A `MemoryRegion` value is a decoded copy of a block header; the heap
//! reads it out of the extent words, works on it, and writes it back.  The
//! layout of a block is:
//!
//! ```text
//! +--------+----------+----------+     +---------+
//! | tag    | next     | prev     | ... | end tag |
//! +--------+----------+----------+     +---------+
//! ^        ^
//! |        start of usable memory (when occupied)
//! base
//! ```
//!
//! Link fields hold byte offsets of other block headers; the list head
//! sentinel owned by the heap appears as the pseudo-address `HEAD_ADDR`.

use vstd::prelude::*;
use crate::tag::BoundaryTag;
use crate::align::{align_up, align_up_s, spec_is_pow2};
use crate::{MAX_EXTENT, MIN_SIZE, TAG_BYTES};

verus! {

broadcast use crate::tag::lemma_tag_size_bounds;

/// Whether a block at byte offset `base` with usable size `bsize` can serve
/// a request for `size` bytes at alignment `align`: the gap forced by
/// aligning the data start plus the requested size must fit.
pub open spec fn sufficient_spec(base: int, bsize: int, size: int, align: int) -> bool {
    align_up_s(base + TAG_BYTES, align) - (base + TAG_BYTES) + size <= bsize
}

/// A decoded block header.
#[derive(Clone, Copy, Debug)]
pub struct MemoryRegion {
    /// Byte offset of the start tag within the extent.
    pub base: usize,
    /// The start tag describing this block.
    pub tag: BoundaryTag,
    /// Offset of the next free-list entry, while the block is free.
    pub next: Option<usize>,
    /// Offset of the previous free-list entry, while the block is free.
    pub prev: Option<usize>,
}

impl MemoryRegion {
    /// A fresh, unlinked header for an empty free block at offset 0.
    pub fn new() -> (r: MemoryRegion)
        ensures
            r.base == 0,
            r.tag.spec_size() == 0,
            r.tag.spec_free(),
            !r.tag.spec_guard(),
            r.next.is_none(),
            r.prev.is_none(),
    {
        MemoryRegion { base: 0, tag: BoundaryTag::new(), next: None, prev: None }
    }

    /// Initializes the header of a free block with the given usable size
    /// and free-list links; the end tag is mirrored separately.
    pub fn init(&mut self, size: usize, next: Option<usize>, prev: Option<usize>)
        requires
            size % 4 == 0,
            size <= MAX_EXTENT,
        ensures
            final(self).base == old(self).base,
            final(self).tag.spec_size() == size,
            final(self).tag.spec_free(),
            !final(self).tag.spec_guard(),
            final(self).next == next,
            final(self).prev == prev,
    {
        self.tag = BoundaryTag::new();
        self.tag.init(size, true, false);
        self.set_next(next);
        self.set_prev(prev);
    }

    /// Total footprint of a block with usable size `inner_size`: the usable
    /// bytes plus the two framing tags.
    pub fn outer_size(inner_size: usize) -> (r: usize)
        requires
            inner_size <= MAX_EXTENT,
        ensures
            r == inner_size + 2 * TAG_BYTES,
    {
        inner_size + 2 * TAG_BYTES
    }

    /// Smallest usable size any block may have: room for the two links.
    pub fn min_size() -> (r: usize)
        ensures
            r == MIN_SIZE,
    {
        MIN_SIZE
    }

    /// Sets the offset of the next free-list entry.
    pub fn set_next(&mut self, next: Option<usize>)
        ensures
            *final(self) == (MemoryRegion { next, ..*old(self) }),
    {
        self.next = next;
    }

    /// Sets the offset of the previous free-list entry.
    pub fn set_prev(&mut self, prev: Option<usize>)
        ensures
            *final(self) == (MemoryRegion { prev, ..*old(self) }),
    {
        self.prev = prev;
    }

    /// Offset of the next free-list entry.
    pub fn next(&self) -> (r: Option<usize>)
        ensures
            r == self.next,
    {
        self.next
    }

    /// Offset of the previous free-list entry.
    pub fn prev(&self) -> (r: Option<usize>)
        ensures
            r == self.prev,
    {
        self.prev
    }

    /// The start tag.
    pub fn tag(&self) -> (r: &BoundaryTag)
        ensures
            *r == self.tag,
    {
        &self.tag
    }

    /// Mutable access to the start tag.
    pub fn mut_tag(&mut self) -> (r: &mut BoundaryTag)
        ensures
            *r == old(self).tag,
            *final(self) == (MemoryRegion { tag: *final(r), ..*old(self) }),
    {
        &mut self.tag
    }

    /// Byte offset of this block's end tag, just past its usable bytes.
    pub fn end_tag(&self) -> (r: usize)
        requires
            self.base + TAG_BYTES + self.tag.spec_size() <= MAX_EXTENT,
        ensures
            r == self.base + TAG_BYTES + self.tag.spec_size(),
    {
        self.base + TAG_BYTES + self.tag.size()
    }

    /// Offset of the end tag of the preceding physical neighbor, sitting
    /// immediately before this block's start tag; `None` when the start tag
    /// is a guard (no neighbor exists on that side).
    pub fn prev_neighbor_memory_region(&self) -> (r: Option<usize>)
        requires
            self.tag.spec_guard() || self.base >= TAG_BYTES,
        ensures
            r == if self.tag.spec_guard() {
                Option::<usize>::None
            } else {
                Option::<usize>::Some((self.base - TAG_BYTES) as usize)
            },
    {
        if self.tag.is_guard() {
            None
        } else {
            Some(self.base - TAG_BYTES)
        }
    }

    /// Usable size of this block.
    pub fn size(&self) -> (r: usize)
        ensures
            r == self.tag.spec_size(),
    {
        self.tag.size()
    }

    /// Whether this block is free.
    pub fn is_free(&self) -> (r: bool)
        ensures
            r == self.tag.spec_free(),
    {
        self.tag.is_free()
    }

    /// Byte offset of this block's usable memory, just past the start tag.
    pub fn addr(&self) -> (r: usize)
        requires
            self.base + TAG_BYTES <= MAX_EXTENT,
        ensures
            r == self.base + TAG_BYTES,
    {
        self.base + TAG_BYTES
    }

    /// Whether this free block can serve a request of `size` bytes aligned
    /// to `align` without being mutated first.
    pub fn is_sufficient(&self, size: usize, align: usize) -> (r: bool)
        requires
            spec_is_pow2(align as int),
            self.base + TAG_BYTES + self.tag.spec_size() <= MAX_EXTENT,
        ensures
            r == sufficient_spec(
                self.base as int,
                self.tag.spec_size(),
                size as int,
                align as int,
            ),
            r ==> align <= MAX_EXTENT,
    {
        let a = self.addr();
        let bsize = self.size();
        if align > MAX_EXTENT {
            proof {
                let al = align as int;
                assert((a + al - 1) / al >= 1) by (nonlinear_arith)
                    requires al >= 1, a >= 1;
                assert(((a + al - 1) / al) * al >= al) by (nonlinear_arith)
                    requires al >= 1, (a + al - 1) / al >= 1;
            }
            return false;
        }
        let dest = align_up(a, align);
        size <= bsize && dest - a <= bsize - size
    }

    /// Marks the start tag free or occupied; the heap mirrors the end tag.
    pub fn set_free(&mut self, free: bool)
        ensures
            final(self).base == old(self).base,
            final(self).next == old(self).next,
            final(self).prev == old(self).prev,
            final(self).tag.spec_free() == free,
            final(self).tag.spec_size() == old(self).tag.spec_size(),
            final(self).tag.spec_guard() == old(self).tag.spec_guard(),
    {
        self.tag.set_free(free);
    }
}

} // verus!
