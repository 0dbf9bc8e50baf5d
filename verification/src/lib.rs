//! A first-fit boundary-tag heap allocator over a single contiguous extent.
//!
//! The allocator carves one fixed byte extent into variable-sized blocks on
//! demand and reclaims them with physical-neighbor coalescing.  All
//! bookkeeping lives inside the extent itself: every block is framed by a
//! pair of boundary tags (one machine word each), and the free blocks form a
//! doubly-linked list threaded through their own first bytes.
//!
//! The extent is modelled as an owned array of 4-byte words; block addresses
//! are byte offsets into that array.  The in-memory layout of a block is
//! `[start tag][free-list next][free-list prev]...payload...[end tag]`,
//! where a tag word keeps `size >> 2` in its upper bits, the free flag in
//! bit 0 and the guard flag (edge of the extent) in bit 1.

use vstd::prelude::*;

pub mod align;
pub mod tag;
pub mod region;
pub mod heap;
pub mod adapter;

verus! {

/// Width in bytes of one boundary tag (one 4-byte word).
pub const TAG_BYTES: usize = 4;

/// Smallest usable size of any block: room for the two free-list links that
/// a free block keeps in its first bytes.
pub const MIN_SIZE: usize = 8;

/// Largest extent the allocator manages: 128 MiB.  The tag encoding caps
/// an extent near 4 GiB (sizes share a 32-bit word with two flag bits),
/// but the cap here is deliberately lower so that every sum a contract or
/// proof forms — a handful of offsets, sizes and tag widths, or an offset
/// plus a power-of-two alignment up to `MAX_EXTENT` itself — stays free
/// of overflow even on a 32-bit `usize`, and so that every block offset
/// lies far below the two word values reserved as free-list markers.
pub const MAX_EXTENT: usize = 0x0800_0000;

/// Link word marking the absence of a neighbor in the free list.
pub const NIL_LINK: u32 = 0xFFFF_FFFF;

/// Pseudo-address of the free-list head sentinel owned by the heap; it is
/// never a valid block offset.
pub const HEAD_ADDR: usize = 0xFFFF_FFFE;

} // verus!
