//! The heap: one managed extent carved into boundary-tagged blocks.
//!
//! The extent is an owned array of 4-byte words.  Every block occupies a
//! contiguous byte range `[base, base + size + 8)`: a start tag word at
//! `base`, `size` usable bytes from `base + 4`, and a mirrored end tag at
//! `base + 4 + size`.  Free blocks additionally keep the offsets of their
//! free-list neighbors in the first two usable words.  The heap owns a
//! sentinel header acting as the head of that list.
//!
//! The ghost model carries three views of the extent, tied to the words by
//! [`Heap::inv`]: the physical block sequence (`blocks`), the free list as
//! a sequence of block indices in list order (`order`), and the map of
//! live allocations (`allocs`).

use vstd::prelude::*;
use crate::tag::{BoundaryTag, t_free, t_guard, t_size};
use crate::region::{MemoryRegion, sufficient_spec};
use crate::align::{align_up, align_up_s, lemma_align_up_add, spec_is_pow2};
use crate::{HEAD_ADDR, MAX_EXTENT, MIN_SIZE, NIL_LINK, TAG_BYTES};

verus! {

broadcast use crate::tag::lemma_tag_size_bounds, crate::tag::lemma_t_size_bounds;

/// Failure of an allocation request: no free block could satisfy it.
/// Carries the original request for diagnostic purposes.
#[derive(Clone, Copy, Debug, PartialEq, Eq, Structural)]
pub enum AllocErr {
    /// No free block is large enough for this size/alignment request.
    Exhausted { size: usize, align: usize },
}

/// Ghost description of one physical block of the extent.
pub ghost struct Block {
    /// Byte offset of the start tag.
    pub base: int,
    /// Usable size in bytes.
    pub size: int,
    /// Whether the block is on the free list.
    pub free: bool,
}

/// Ghost record of one live allocation.
pub ghost struct AllocRec {
    /// Base offset of the occupied block serving the allocation.
    pub base: int,
    /// Needed size recorded next to the payload: the tag at
    /// `base + 4 + raw` encodes `raw`, which lets deallocation recover
    /// `base` from the payload address alone.
    pub raw: int,
    /// Requested size of the allocation.
    pub size: int,
}

/// Word index of an (aligned) byte offset.
pub open spec fn wi(a: int) -> int {
    a / 4
}

/// Decodes a link word: `NIL_LINK` means no neighbor.
pub open spec fn opt_addr(w: u32) -> Option<usize> {
    if w == NIL_LINK {
        None
    } else {
        Some(w as usize)
    }
}

/// Encodes a link as stored in the extent.
pub open spec fn link_enc(o: Option<usize>) -> u32 {
    match o {
        None => NIL_LINK,
        Some(a) => a as u32,
    }
}

/// The heap: sentinel list head, managed words, and total extent size.
pub struct Heap {
    words: Vec<u32>,
    first: MemoryRegion,
    size: usize,
    blocks: Ghost<Seq<Block>>,
    order: Ghost<Seq<int>>,
    allocs: Ghost<Map<int, AllocRec>>,
}

impl Heap {
    /// Total size in bytes of the managed extent.
    pub closed spec fn spec_size(self) -> int {
        self.size as int
    }

    /// The physical blocks of the extent, in address order.
    pub closed spec fn blocks(self) -> Seq<Block> {
        self.blocks@
    }

    /// The free list: indices into `blocks()`, in list order.
    pub closed spec fn free_order(self) -> Seq<int> {
        self.order@
    }

    /// The live allocations, keyed by payload address.
    pub closed spec fn alloc_map(self) -> Map<int, AllocRec> {
        self.allocs@
    }

    /// The extent words.
    pub closed spec fn mem(self) -> Seq<u32> {
        self.words@
    }

    /// The sentinel list head.
    pub closed spec fn head(self) -> MemoryRegion {
        self.first
    }

    /// Live allocations as payload address -> requested size.
    pub open spec fn live_allocs(self) -> Map<int, int> {
        Map::new(
            |a: int| self.alloc_map().dom().contains(a),
            |a: int| self.alloc_map()[a].size,
        )
    }

    /// The free-list link expected in the `next` slot of list entry `k`.
    pub open spec fn next_expected(self, k: int) -> Option<usize> {
        if k + 1 < self.free_order().len() {
            Some(self.blocks()[self.free_order()[k + 1]].base as usize)
        } else {
            None
        }
    }

    /// The free-list link expected in the `prev` slot of list entry `k`.
    pub open spec fn prev_expected(self, k: int) -> Option<usize> {
        if k == 0 {
            Some(HEAD_ADDR)
        } else {
            Some(self.blocks()[self.free_order()[k - 1]].base as usize)
        }
    }

    /// Well-formedness of block `i`: its bounds and both of its tags.
    pub open spec fn blk_inv(self, i: int) -> bool {
        let b = self.blocks()[i];
        let n = self.blocks().len() as int;
        &&& 0 <= b.base
        &&& b.base % 4 == 0
        &&& b.size % 4 == 0
        &&& MIN_SIZE <= b.size
        &&& b.base + b.size + 2 * TAG_BYTES <= self.spec_size()
        &&& t_size(self.mem()[wi(b.base)]) == b.size
        &&& t_free(self.mem()[wi(b.base)]) == b.free
        &&& t_guard(self.mem()[wi(b.base)]) == (i == 0)
        &&& t_size(self.mem()[wi(b.base + TAG_BYTES + b.size)]) == b.size
        &&& t_free(self.mem()[wi(b.base + TAG_BYTES + b.size)]) == b.free
        &&& t_guard(self.mem()[wi(b.base + TAG_BYTES + b.size)]) == (i == n - 1)
    }

    /// Block `i + 1` starts right after block `i`'s end tag.
    pub open spec fn contig_at(self, i: int) -> bool {
        self.blocks()[i + 1].base == self.blocks()[i].base + self.blocks()[i].size + 2
            * TAG_BYTES
    }

    /// The blocks partition the extent contiguously, each with valid tags.
    pub open spec fn blocks_inv(self) -> bool {
        let n = self.blocks().len() as int;
        &&& forall|i: int| 0 <= i < n ==> #[trigger] self.blk_inv(i)
        &&& forall|i: int| 0 <= i < n - 1 ==> #[trigger] self.contig_at(i)
        &&& (n == 0 <==> self.spec_size() == 0)
        &&& n > 0 ==> self.blocks()[0].base == 0
        &&& n > 0 ==> self.blocks()[n - 1].base + self.blocks()[n - 1].size + 2 * TAG_BYTES
            == self.spec_size()
    }

    /// List entry `k` points at a free block and carries the right links.
    pub open spec fn order_ok_at(self, k: int) -> bool {
        let j = self.free_order()[k];
        &&& 0 <= j < self.blocks().len()
        &&& self.blocks()[j].free
        &&& opt_addr(self.mem()[wi(self.blocks()[j].base) + 1]) == self.next_expected(k)
        &&& opt_addr(self.mem()[wi(self.blocks()[j].base) + 2]) == self.prev_expected(k)
    }

    /// The free list threads exactly the free blocks, each exactly once.
    pub open spec fn order_inv(self) -> bool {
        &&& forall|k: int| 0 <= k < self.free_order().len() ==> #[trigger] self.order_ok_at(k)
        &&& forall|k1: int, k2: int|
            #![trigger self.free_order()[k1], self.free_order()[k2]]
            0 <= k1 < k2 < self.free_order().len() ==> self.free_order()[k1]
                != self.free_order()[k2]
        &&& forall|i: int| 0 <= i < self.blocks().len() && (#[trigger] self.blocks()[i]).free
            ==> self.free_order().contains(i)
        &&& self.head().next == (if self.free_order().len() > 0 {
            Some(self.blocks()[self.free_order()[0]].base as usize)
        } else {
            Option::<usize>::None
        })
    }

    /// Live allocation at address `a`: it sits inside an occupied block and
    /// the tag at `base + 4 + raw` lets deallocation recover the header.
    pub open spec fn alloc_ok(self, a: int) -> bool {
        let r = self.alloc_map()[a];
        &&& exists|i: int|
            0 <= i < self.blocks().len() && (#[trigger] self.blocks()[i]).base == r.base
                && !self.blocks()[i].free && r.raw <= self.blocks()[i].size
        &&& 0 <= r.base
        &&& r.base % 4 == 0
        &&& 0 <= r.raw
        &&& r.raw % 4 == 0
        &&& 0 <= r.size
        &&& r.base + TAG_BYTES <= a
        &&& a + r.size <= r.base + TAG_BYTES + r.raw
        &&& align_up_s(a + r.size, 4) == r.base + TAG_BYTES + r.raw
        &&& t_size(self.mem()[wi(r.base + TAG_BYTES + r.raw)]) == r.raw
    }

    /// All live allocations are well-formed and sit in distinct blocks.
    pub open spec fn allocs_inv(self) -> bool {
        &&& forall|a: int| self.alloc_map().dom().contains(a) ==> #[trigger] self.alloc_ok(a)
        &&& forall|a1: int, a2: int|
            #![trigger self.alloc_map()[a1], self.alloc_map()[a2]]
            self.alloc_map().dom().contains(a1) && self.alloc_map().dom().contains(a2) && a1
                != a2 ==> self.alloc_map()[a1].base != self.alloc_map()[a2].base
    }

    /// The heap invariant: the ghost views agree with the extent words.
    pub open spec fn inv(self) -> bool {
        &&& self.spec_size() % 4 == 0
        &&& self.spec_size() <= MAX_EXTENT
        &&& self.mem().len() * 4 == self.spec_size()
        &&& self.blocks_inv()
        &&& self.order_inv()
        &&& self.allocs_inv()
    }

    /// Blocks at smaller indices lie strictly below blocks at larger ones.
    pub proof fn lemma_block_ordering(self, i: int, j: int)
        requires
            self.blocks_inv(),
            0 <= i < j < self.blocks().len(),
        ensures
            self.blocks()[i].base + self.blocks()[i].size + 2 * TAG_BYTES
                <= self.blocks()[j].base,
        decreases j - i,
    {
        assert(self.contig_at(i));
        if i + 1 < j {
            self.lemma_block_ordering(i + 1, j);
            assert(self.blk_inv(i + 1));
        }
    }

    /// An uninitialized heap of size zero, whose sentinel is a fresh,
    /// unlinked header.
    pub fn empty() -> (h: Heap)
        ensures
            h.inv(),
            h.spec_size() == 0,
            h.blocks().len() == 0,
            h.free_order().len() == 0,
            h.live_allocs() =~= Map::<int, int>::empty(),
            h.head().base == 0,
            h.head().next == Option::<usize>::None,
            h.head().prev == Option::<usize>::None,
            h.head().tag.spec_size() == 0,
            h.head().tag.spec_free(),
            !h.head().tag.spec_guard(),
    {
        Heap {
            words: Vec::new(),
            first: MemoryRegion::new(),
            size: 0,
            blocks: Ghost(Seq::empty()),
            order: Ghost(Seq::empty()),
            allocs: Ghost(Map::empty()),
        }
    }
}

/// Reads one word of the extent.
fn read_word(words: &Vec<u32>, i: usize) -> (w: u32)
    requires
        i < words@.len(),
    ensures
        w == words@[i as int],
{
    words[i]
}

/// Overwrites one word of the extent.
fn write_word(words: &mut Vec<u32>, i: usize, w: u32)
    requires
        i < old(words)@.len(),
    ensures
        final(words)@ == old(words)@.update(i as int, w),
{
    let p = &mut words[i];
    *p = w;
}

/// Reads a block header out of the extent.
fn load_region(words: &Vec<u32>, base: usize) -> (r: MemoryRegion)
    requires
        base % 4 == 0,
        base + 12 <= words@.len() * 4,
    ensures
        r.base == base,
        r.tag.spec_word() == words@[wi(base as int)],
        r.tag.spec_size() == t_size(words@[wi(base as int)]),
        r.tag.spec_free() == t_free(words@[wi(base as int)]),
        r.tag.spec_guard() == t_guard(words@[wi(base as int)]),
        r.next == opt_addr(words@[wi(base as int) + 1]),
        r.prev == opt_addr(words@[wi(base as int) + 2]),
{
    let i = base / 4;
    let tag = BoundaryTag::from_word(read_word(words, i));
    let wn = read_word(words, i + 1);
    let wp = read_word(words, i + 2);
    let next = if wn == NIL_LINK {
        None
    } else {
        Some(wn as usize)
    };
    let prev = if wp == NIL_LINK {
        None
    } else {
        Some(wp as usize)
    };
    MemoryRegion { base, tag, next, prev }
}

/// Encodes a link for storage in the extent.
fn link_word(o: Option<usize>) -> (w: u32)
    requires
        o matches Some(a) ==> a <= HEAD_ADDR,
    ensures
        w == link_enc(o),
        opt_addr(w) == o,
{
    match o {
        None => NIL_LINK,
        Some(a) => a as u32,
    }
}

/// For 4-byte-aligned offsets, the word index distributes over addition.
proof fn lemma_wi_add(x: int, y: int)
    requires
        x % 4 == 0,
        y % 4 == 0,
        0 <= x,
        0 <= y,
    ensures
        wi(x + y) == wi(x) + wi(y),
        4 * wi(x) == x,
        4 * wi(y) == y,
        4 * wi(x + y) == x + y,
{
    vstd::arithmetic::div_mod::lemma_fundamental_div_mod(x, 4);
    vstd::arithmetic::div_mod::lemma_fundamental_div_mod(y, 4);
    vstd::arithmetic::div_mod::lemma_fundamental_div_mod(x + y, 4);
    vstd::arithmetic::div_mod::lemma_add_mod_noop(x, y, 4);
}

/// Word indices of distinct 4-byte-aligned offsets are distinct.
proof fn lemma_wi_inj(x: int, y: int)
    requires
        x % 4 == 0,
        y % 4 == 0,
        0 <= x,
        0 <= y,
        x != y,
    ensures
        wi(x) != wi(y),
{
    vstd::arithmetic::div_mod::lemma_fundamental_div_mod(x, 4);
    vstd::arithmetic::div_mod::lemma_fundamental_div_mod(y, 4);
}

/// A 4-byte-aligned offset strictly below the extent size indexes a word.
proof fn lemma_wi_bound(x: int, len: int)
    requires
        x % 4 == 0,
        0 <= x,
        x + 4 <= 4 * len,
    ensures
        0 <= wi(x) < len,
{
    vstd::arithmetic::div_mod::lemma_fundamental_div_mod(x, 4);
}

/// Rounding up to the tag width is exact on aligned values.
proof fn lemma_align4_exact(x: int)
    requires
        x % 4 == 0,
        0 <= x,
    ensures
        align_up_s(x, 4) == x,
{
    vstd::arithmetic::div_mod::lemma_fundamental_div_mod(x + 3, 4);
    vstd::arithmetic::div_mod::lemma_fundamental_div_mod(x, 4);
    vstd::arithmetic::div_mod::lemma_add_mod_noop(x, 3, 4);
}

/// Four is a power of two.
proof fn lemma_pow2_4()
    ensures
        spec_is_pow2(4),
{
    reveal_with_fuel(spec_is_pow2, 4);
}

impl Heap {
    /// Distinct blocks occupy disjoint byte ranges.
    pub proof fn lemma_blocks_separated(self, i: int, j: int)
        requires
            self.blocks_inv(),
            0 <= i < self.blocks().len(),
            0 <= j < self.blocks().len(),
            i != j,
        ensures
            self.blocks()[i].base + self.blocks()[i].size + 2 * TAG_BYTES
                <= self.blocks()[j].base || self.blocks()[j].base + self.blocks()[j].size + 2
                * TAG_BYTES <= self.blocks()[i].base,
    {
        if i < j {
            self.lemma_block_ordering(i, j);
        } else {
            self.lemma_block_ordering(j, i);
        }
    }

    /// Lists the free blocks in list order, as (offset, size) pairs.
    pub fn debug_list(&self) -> (r: Vec<(usize, usize)>)
        requires
            self.inv(),
        ensures
            r@.len() == self.free_order().len(),
            forall|k: int| 0 <= k < r@.len() ==> #[trigger] r@[k] == (
                self.blocks()[self.free_order()[k]].base as usize,
                self.blocks()[self.free_order()[k]].size as usize,
            ),
    {
        let mut out: Vec<(usize, usize)> = Vec::new();
        let mut cur: Option<usize> = self.first.next();
        let ghost mut k: int = 0;
        loop
            invariant
                self.inv(),
                0 <= k <= self.free_order().len(),
                cur == (if k < self.free_order().len() {
                    Some(self.blocks()[self.free_order()[k]].base as usize)
                } else {
                    Option::<usize>::None
                }),
                out@.len() == k,
                forall|m: int| 0 <= m < k ==> #[trigger] out@[m] == (
                    self.blocks()[self.free_order()[m]].base as usize,
                    self.blocks()[self.free_order()[m]].size as usize,
                ),
            decreases self.free_order().len() - k,
        {
            match cur {
                None => {
                    return out;
                }
                Some(base) => {
                    proof {
                        assert(self.order_ok_at(k));
                        assert(self.blk_inv(self.free_order()[k]));
                    }
                    let reg = load_region(&self.words, base);
                    out.push((base, reg.size()));
                    cur = reg.next();
                    proof {
                        k = k + 1;
                    }
                }
            }
        }
    }

    /// Initializes the heap over a fresh extent of `size` bytes: one free
    /// block spans the whole extent minus the two guard tags, and the free
    /// list holds exactly that block.  Resets any previous state.
    pub fn init(&mut self, size: usize)
        requires
            2 * TAG_BYTES + MIN_SIZE <= size,
            size % 4 == 0,
            size <= MAX_EXTENT,
        ensures
            final(self).inv(),
            final(self).spec_size() == size,
            final(self).blocks() =~= seq![
                Block { base: 0, size: size - 2 * TAG_BYTES, free: true },
            ],
            final(self).free_order() =~= seq![0int],
            final(self).live_allocs() =~= Map::<int, int>::empty(),
    {
        self.size = size;
        let n = size / 4;
        proof {
            vstd::arithmetic::div_mod::lemma_fundamental_div_mod(size as int, 4);
        }
        self.words = vec![0u32; n];
        let usable = size - 2 * TAG_BYTES;
        let mut t = BoundaryTag::new();
        t.init(usable, true, true);
        let w = t.to_word();
        write_word(&mut self.words, 0, w);
        write_word(&mut self.words, 1, NIL_LINK);
        write_word(&mut self.words, 2, HEAD_ADDR as u32);
        write_word(&mut self.words, n - 1, w);
        self.first = MemoryRegion::new();
        self.first.set_next(Some(0));
        proof {
            self.blocks@ = seq![Block { base: 0, size: usable as int, free: true }];
            self.order@ = seq![0int];
            self.allocs@ = Map::empty();
            assert(wi(0) == 0);
            assert(wi(0 + TAG_BYTES + usable) == n - 1);
            assert(self.blk_inv(0));
            assert(self.order_ok_at(0)) by {
                assert(opt_addr(NIL_LINK) == Option::<usize>::None);
                assert(HEAD_ADDR as u32 != NIL_LINK) by (bit_vector);
                assert((HEAD_ADDR as u32) as usize == HEAD_ADDR);
            }
            assert(self.free_order().contains(0)) by {
                assert(self.free_order()[0] == 0);
            }
            assert forall|i: int|
                0 <= i < self.blocks().len() && (#[trigger] self.blocks()[i]).free implies self
                .free_order().contains(i) by {
                assert(i == 0);
                assert(self.free_order()[0] == 0);
            }
        }
    }
}

impl Heap {
    /// What a splitting allocation writes: the post-state words, blocks,
    /// free list, allocation map and list head, relative to the pre-state.
    /// The served block keeps `needed` bytes and turns occupied; a new free
    /// block covers the tail and takes the old block's list slot.
    pub open spec fn split_shape(
        pre: Heap,
        post: Heap,
        k: int,
        dest: int,
        size: int,
        raw: int,
        needed: int,
    ) -> bool {
        let j = pre.free_order()[k];
        let b = pre.blocks()[j];
        let n = pre.blocks().len() as int;
        let nbase = b.base + needed + 2 * TAG_BYTES;
        let nsize = b.size - needed - 2 * TAG_BYTES;
        &&& post.spec_size() == pre.spec_size()
        &&& post.mem().len() == pre.mem().len()
        &&& post.blocks().len() == n + 1
        &&& forall|x: int| 0 <= x < j ==> #[trigger] post.blocks()[x] == pre.blocks()[x]
        &&& post.blocks()[j] == (Block { base: b.base, size: needed, free: false })
        &&& post.blocks()[j + 1] == (Block { base: nbase, size: nsize, free: true })
        &&& forall|x: int| j + 1 < x < n + 1 ==> #[trigger] post.blocks()[x] == pre.blocks()[x
            - 1]
        &&& post.free_order().len() == pre.free_order().len()
        &&& post.free_order()[k] == j + 1
        &&& forall|m: int|
            0 <= m < pre.free_order().len() && m != k ==> #[trigger] post.free_order()[m] == (
            if pre.free_order()[m] > j {
                pre.free_order()[m] + 1
            } else {
                pre.free_order()[m]
            })
        &&& post.alloc_map() == pre.alloc_map().insert(
            dest,
            AllocRec { base: b.base, raw: raw, size: size },
        )
        &&& post.head().next == (if k == 0 {
            Some(nbase as usize)
        } else {
            pre.head().next
        })
        &&& t_size(post.mem()[wi(nbase)]) == nsize
        &&& t_free(post.mem()[wi(nbase)])
        &&& !t_guard(post.mem()[wi(nbase)])
        &&& post.mem()[wi(nbase) + 1] == link_enc(pre.next_expected(k))
        &&& post.mem()[wi(nbase) + 2] == link_enc(pre.prev_expected(k))
        &&& t_size(post.mem()[wi(nbase + TAG_BYTES + nsize)]) == nsize
        &&& t_free(post.mem()[wi(nbase + TAG_BYTES + nsize)])
        &&& t_guard(post.mem()[wi(nbase + TAG_BYTES + nsize)]) == (j == n - 1)
        &&& t_size(post.mem()[wi(b.base)]) == needed
        &&& !t_free(post.mem()[wi(b.base)])
        &&& t_guard(post.mem()[wi(b.base)]) == (j == 0)
        &&& t_size(post.mem()[wi(b.base + TAG_BYTES + needed)]) == needed
        &&& !t_free(post.mem()[wi(b.base + TAG_BYTES + needed)])
        &&& !t_guard(post.mem()[wi(b.base + TAG_BYTES + needed)])
        &&& t_size(post.mem()[wi(b.base + TAG_BYTES + raw)]) == raw
        &&& !t_free(post.mem()[wi(b.base + TAG_BYTES + raw)])
        &&& !t_guard(post.mem()[wi(b.base + TAG_BYTES + raw)])
        &&& (k > 0 ==> post.mem()[wi(pre.blocks()[pre.free_order()[k - 1]].base) + 1]
            == link_enc(Some(nbase as usize)))
        &&& (k + 1 < pre.free_order().len() ==> post.mem()[wi(
            pre.blocks()[pre.free_order()[k + 1]].base,
        ) + 2] == link_enc(Some(nbase as usize)))
        &&& forall|x: int|
            0 <= x < pre.mem().len() && !Self::split_touched(pre, k, raw, needed, x)
                ==> post.mem()[x] == pre.mem()[x]
    }

    /// The word indices a splitting allocation may write.
    pub open spec fn split_touched(pre: Heap, k: int, raw: int, needed: int, x: int) -> bool {
        let j = pre.free_order()[k];
        let b = pre.blocks()[j];
        let nbase = b.base + needed + 2 * TAG_BYTES;
        let nsize = b.size - needed - 2 * TAG_BYTES;
        ||| x == wi(nbase)
        ||| x == wi(nbase) + 1
        ||| x == wi(nbase) + 2
        ||| x == wi(nbase + TAG_BYTES + nsize)
        ||| x == wi(b.base)
        ||| x == wi(b.base + TAG_BYTES + needed)
        ||| x == wi(b.base + TAG_BYTES + raw)
        ||| (k > 0 && x == wi(pre.blocks()[pre.free_order()[k - 1]].base) + 1)
        ||| (k + 1 < pre.free_order().len() && x == wi(
            pre.blocks()[pre.free_order()[k + 1]].base,
        ) + 2)
    }

    /// What a whole-block allocation writes: the block is marked occupied,
    /// unlinked from the free list, and a breadcrumb tag records `raw`.
    pub open spec fn whole_shape(
        pre: Heap,
        post: Heap,
        k: int,
        dest: int,
        size: int,
        raw: int,
    ) -> bool {
        let j = pre.free_order()[k];
        let b = pre.blocks()[j];
        let n = pre.blocks().len() as int;
        &&& post.spec_size() == pre.spec_size()
        &&& post.mem().len() == pre.mem().len()
        &&& post.blocks().len() == n
        &&& post.blocks()[j] == (Block { base: b.base, size: b.size, free: false })
        &&& forall|x: int| 0 <= x < n && x != j ==> #[trigger] post.blocks()[x]
            == pre.blocks()[x]
        &&& post.free_order().len() == pre.free_order().len() - 1
        &&& forall|m: int|
            0 <= m < pre.free_order().len() - 1 ==> #[trigger] post.free_order()[m] == (if m
                < k {
                pre.free_order()[m]
            } else {
                pre.free_order()[m + 1]
            })
        &&& post.alloc_map() == pre.alloc_map().insert(
            dest,
            AllocRec { base: b.base, raw: raw, size: size },
        )
        &&& post.head().next == (if k == 0 {
            pre.next_expected(0)
        } else {
            pre.head().next
        })
        &&& t_size(post.mem()[wi(b.base)]) == b.size
        &&& !t_free(post.mem()[wi(b.base)])
        &&& t_guard(post.mem()[wi(b.base)]) == (j == 0)
        &&& t_size(post.mem()[wi(b.base + TAG_BYTES + b.size)]) == b.size
        &&& !t_free(post.mem()[wi(b.base + TAG_BYTES + b.size)])
        &&& t_guard(post.mem()[wi(b.base + TAG_BYTES + b.size)]) == (j == n - 1)
        &&& t_size(post.mem()[wi(b.base + TAG_BYTES + raw)]) == raw
        &&& !t_free(post.mem()[wi(b.base + TAG_BYTES + raw)])
        &&& t_guard(post.mem()[wi(b.base + TAG_BYTES + raw)]) == (raw == b.size && j == n
            - 1)
        &&& (k > 0 ==> post.mem()[wi(pre.blocks()[pre.free_order()[k - 1]].base) + 1]
            == link_enc(pre.next_expected(k)))
        &&& (k + 1 < pre.free_order().len() ==> post.mem()[wi(
            pre.blocks()[pre.free_order()[k + 1]].base,
        ) + 2] == link_enc(pre.prev_expected(k)))
        &&& forall|x: int|
            0 <= x < pre.mem().len() && !Self::whole_touched(pre, k, raw, x) ==> post.mem()[x]
                == pre.mem()[x]
    }

    /// The word indices a whole-block allocation may write.
    pub open spec fn whole_touched(pre: Heap, k: int, raw: int, x: int) -> bool {
        let j = pre.free_order()[k];
        let b = pre.blocks()[j];
        ||| x == wi(b.base)
        ||| x == wi(b.base + TAG_BYTES + b.size)
        ||| x == wi(b.base + TAG_BYTES + raw)
        ||| (k > 0 && x == wi(pre.blocks()[pre.free_order()[k - 1]].base) + 1)
        ||| (k + 1 < pre.free_order().len() && x == wi(
            pre.blocks()[pre.free_order()[k + 1]].base,
        ) + 2)
    }

    /// After a split, the physical blocks are again well formed.
    #[verifier::rlimit(100)]
    proof fn lemma_split_blocks(
        pre: Heap,
        post: Heap,
        k: int,
        dest: int,
        size: int,
        raw: int,
        needed: int,
    )
        requires
            Self::alloc_pre(pre, k, dest, size, raw),
            raw <= needed,
            needed % 4 == 0,
            MIN_SIZE <= needed,
            needed + 2 * TAG_BYTES + MIN_SIZE <= pre.blocks()[pre.free_order()[k]].size,
            Self::split_shape(pre, post, k, dest, size, raw, needed),
        ensures
            post.blocks_inv(),
    {
        let j = pre.free_order()[k];
        let b = pre.blocks()[j];
        let n = pre.blocks().len() as int;
        let nbase = b.base + needed + 2 * TAG_BYTES;
        let nsize = b.size - needed - 2 * TAG_BYTES;
        let b1 = post.blocks();
        assert(pre.order_ok_at(k));
        assert(pre.blk_inv(j));
        lemma_wi_add(b.base, TAG_BYTES + b.size);
        lemma_wi_add(b.base, TAG_BYTES + needed);
        lemma_wi_add(b.base, TAG_BYTES + raw);
        lemma_wi_add(b.base, needed + 2 * TAG_BYTES);
        lemma_wi_add(nbase, TAG_BYTES + nsize);
        lemma_wi_add(nbase, TAG_BYTES as int);
        lemma_wi_add(nbase, 2 * TAG_BYTES);
        if k > 0 {
            assert(pre.order_ok_at(k - 1));
            assert(pre.free_order()[k - 1] != pre.free_order()[k]);
            assert(pre.blk_inv(pre.free_order()[k - 1]));
            lemma_wi_add(pre.blocks()[pre.free_order()[k - 1]].base, TAG_BYTES as int);
            pre.lemma_blocks_separated(pre.free_order()[k - 1], j);
        }
        if k + 1 < pre.free_order().len() {
            assert(pre.order_ok_at(k + 1));
            assert(pre.free_order()[k] != pre.free_order()[k + 1]);
            assert(pre.blk_inv(pre.free_order()[k + 1]));
            lemma_wi_add(pre.blocks()[pre.free_order()[k + 1]].base, 2 * TAG_BYTES);
            pre.lemma_blocks_separated(pre.free_order()[k + 1], j);
        }
        assert forall|x: int| 0 <= x < b1.len() implies #[trigger] post.blk_inv(x) by {
            if x == j {
                assert(post.blk_inv(x));
            } else if x == j + 1 {
                assert(post.blk_inv(x));
            } else {
                let ox = if x < j {
                    x
                } else {
                    x - 1
                };
                let bx = pre.blocks()[ox];
                assert(pre.blk_inv(ox));
                lemma_wi_add(bx.base, TAG_BYTES + bx.size);
                pre.lemma_blocks_separated(ox, j);
                if k > 0 && ox != pre.free_order()[k - 1] {
                    pre.lemma_blocks_separated(ox, pre.free_order()[k - 1]);
                }
                if k + 1 < pre.free_order().len() && ox != pre.free_order()[k + 1] {
                    pre.lemma_blocks_separated(ox, pre.free_order()[k + 1]);
                }
                assert(!Self::split_touched(pre, k, raw, needed, wi(bx.base)));
                assert(!Self::split_touched(
                    pre,
                    k,
                    raw,
                    needed,
                    wi(bx.base + TAG_BYTES + bx.size),
                ));
                assert(post.mem()[wi(bx.base)] == pre.mem()[wi(bx.base)]);
                assert(post.mem()[wi(bx.base + TAG_BYTES + bx.size)] == pre.mem()[wi(bx.base
                    + TAG_BYTES + bx.size)]);
                assert(post.blk_inv(x));
            }
        }
        assert forall|x: int| 0 <= x < b1.len() - 1 implies #[trigger] post.contig_at(x) by {
            if x < j - 1 {
                assert(pre.contig_at(x));
            } else if x == j - 1 {
                assert(pre.contig_at(j - 1));
            } else if x == j + 1 {
                if j + 1 < n {
                    assert(pre.contig_at(j));
                }
            } else if x > j + 1 {
                assert(pre.contig_at(x - 1));
            }
        }
        if j == n - 1 {
            assert(b1[b1.len() - 1].base + b1[b1.len() - 1].size + 2 * TAG_BYTES
                == post.spec_size());
        } else {
            assert(pre.blk_inv(n - 1));
        }
    }

    /// After a split, the free list is again well formed: the new free
    /// block has taken the old block's list slot.
    #[verifier::rlimit(100)]
    proof fn lemma_split_order(
        pre: Heap,
        post: Heap,
        k: int,
        dest: int,
        size: int,
        raw: int,
        needed: int,
    )
        requires
            Self::alloc_pre(pre, k, dest, size, raw),
            raw <= needed,
            needed % 4 == 0,
            MIN_SIZE <= needed,
            needed + 2 * TAG_BYTES + MIN_SIZE <= pre.blocks()[pre.free_order()[k]].size,
            Self::split_shape(pre, post, k, dest, size, raw, needed),
        ensures
            post.order_inv(),
    {
        let j = pre.free_order()[k];
        let b = pre.blocks()[j];
        let n = pre.blocks().len() as int;
        let nbase = b.base + needed + 2 * TAG_BYTES;
        let nsize = b.size - needed - 2 * TAG_BYTES;
        let o0 = pre.free_order();
        let o1 = post.free_order();
        let b1 = post.blocks();
        assert(pre.order_ok_at(k));
        assert(pre.blk_inv(j));
        lemma_wi_add(b.base, TAG_BYTES + b.size);
        lemma_wi_add(b.base, TAG_BYTES + needed);
        lemma_wi_add(b.base, TAG_BYTES + raw);
        lemma_wi_add(b.base, needed + 2 * TAG_BYTES);
        lemma_wi_add(nbase, TAG_BYTES + nsize);
        lemma_wi_add(nbase, TAG_BYTES as int);
        lemma_wi_add(nbase, 2 * TAG_BYTES);
        if k > 0 {
            assert(pre.order_ok_at(k - 1));
            assert(o0[k - 1] != o0[k]);
            assert(pre.blk_inv(o0[k - 1]));
            lemma_wi_add(pre.blocks()[o0[k - 1]].base, TAG_BYTES as int);
            lemma_wi_add(pre.blocks()[o0[k - 1]].base, 2 * TAG_BYTES);
            lemma_wi_add(pre.blocks()[o0[k - 1]].base, TAG_BYTES + pre.blocks()[o0[k
                - 1]].size);
            pre.lemma_blocks_separated(o0[k - 1], j);
        }
        if k + 1 < o0.len() {
            assert(pre.order_ok_at(k + 1));
            assert(o0[k] != o0[k + 1]);
            assert(pre.blk_inv(o0[k + 1]));
            lemma_wi_add(pre.blocks()[o0[k + 1]].base, TAG_BYTES as int);
            lemma_wi_add(pre.blocks()[o0[k + 1]].base, 2 * TAG_BYTES);
            lemma_wi_add(pre.blocks()[o0[k + 1]].base, TAG_BYTES + pre.blocks()[o0[k
                + 1]].size);
            pre.lemma_blocks_separated(o0[k + 1], j);
            if k > 0 {
                assert(o0[k - 1] != o0[k + 1]);
                pre.lemma_blocks_separated(o0[k - 1], o0[k + 1]);
            }
        }
        assert forall|m: int| 0 <= m < o1.len() && m != k implies #[trigger] o0[m] != j by {
            if m < k {
                assert(o0[m] != o0[k]);
            } else {
                assert(o0[k] != o0[m]);
            }
        }
        assert forall|m: int| 0 <= m < o1.len() && m != k implies 0 <= #[trigger] o1[m]
            < b1.len() && b1[o1[m]] == pre.blocks()[o0[m]] by {
            assert(pre.order_ok_at(m));
        }
        assert forall|m: int| 0 <= m < o1.len() implies #[trigger] post.order_ok_at(m) by {
            if m == k {
                assert(post.order_ok_at(m));
            } else {
                let x = o0[m];
                let bx = pre.blocks()[x];
                assert(pre.order_ok_at(m));
                assert(pre.blk_inv(x));
                lemma_wi_add(bx.base, TAG_BYTES as int);
                lemma_wi_add(bx.base, 2 * TAG_BYTES);
                lemma_wi_add(bx.base, TAG_BYTES + bx.size);
                pre.lemma_blocks_separated(x, j);
                if k > 0 && x != o0[k - 1] {
                    pre.lemma_blocks_separated(x, o0[k - 1]);
                }
                if k + 1 < o0.len() && x != o0[k + 1] {
                    pre.lemma_blocks_separated(x, o0[k + 1]);
                }
                if m == k - 1 {
                    assert(post.mem()[wi(bx.base) + 1] == link_enc(Some(nbase as usize)));
                    assert(!Self::split_touched(pre, k, raw, needed, wi(bx.base) + 2));
                } else if m == k + 1 {
                    assert(post.mem()[wi(bx.base) + 2] == link_enc(Some(nbase as usize)));
                    assert(!Self::split_touched(pre, k, raw, needed, wi(bx.base) + 1));
                } else {
                    assert(!Self::split_touched(pre, k, raw, needed, wi(bx.base) + 1));
                    assert(!Self::split_touched(pre, k, raw, needed, wi(bx.base) + 2));
                }
                if m + 1 < o1.len() && m + 1 != k {
                    assert(pre.order_ok_at(m + 1));
                }
                if m >= 1 && m - 1 != k {
                    assert(pre.order_ok_at(m - 1));
                }
                assert(post.order_ok_at(m));
            }
        }
        assert forall|m1: int, m2: int| 0 <= m1 < m2 < o1.len() implies o1[m1] != o1[m2] by {
            assert(o0[m1] != o0[m2]);
        }
        assert forall|i: int|
            0 <= i < b1.len() && (#[trigger] b1[i]).free implies o1.contains(i) by {
            if i == j + 1 {
                assert(o1[k] == i);
            } else if i < j {
                assert(pre.blocks()[i].free);
                assert(o0.contains(i));
                let m = choose|m: int| 0 <= m < o0.len() && o0[m] == i;
                assert(o0[m] != j);
                assert(m != k);
                assert(o1[m] == i);
            } else if i > j + 1 {
                assert(pre.blocks()[i - 1].free);
                assert(o0.contains(i - 1));
                let m = choose|m: int| 0 <= m < o0.len() && o0[m] == i - 1;
                assert(m != k);
                assert(o1[m] == i);
            }
        }
    }

    /// After a split, the live allocations are those of the pre-state plus
    /// the newly served one, each still well recorded.
    #[verifier::rlimit(100)]
    proof fn lemma_split_allocs(
        pre: Heap,
        post: Heap,
        k: int,
        dest: int,
        size: int,
        raw: int,
        needed: int,
    )
        requires
            Self::alloc_pre(pre, k, dest, size, raw),
            raw <= needed,
            needed % 4 == 0,
            MIN_SIZE <= needed,
            needed + 2 * TAG_BYTES + MIN_SIZE <= pre.blocks()[pre.free_order()[k]].size,
            Self::split_shape(pre, post, k, dest, size, raw, needed),
        ensures
            post.allocs_inv(),
            !pre.live_allocs().dom().contains(dest),
            post.live_allocs() == pre.live_allocs().insert(dest, size),
    {
        let j = pre.free_order()[k];
        let b = pre.blocks()[j];
        let n = pre.blocks().len() as int;
        let o0 = pre.free_order();
        let b1 = post.blocks();
        let rec = AllocRec { base: b.base, raw: raw, size: size };
        assert(pre.order_ok_at(k));
        assert(pre.blk_inv(j));
        lemma_wi_add(b.base, TAG_BYTES + b.size);
        lemma_wi_add(b.base, TAG_BYTES + needed);
        lemma_wi_add(b.base, TAG_BYTES + raw);
        lemma_wi_add(b.base, needed + 2 * TAG_BYTES);
        if k > 0 {
            assert(pre.order_ok_at(k - 1));
            assert(pre.blk_inv(o0[k - 1]));
            lemma_wi_add(pre.blocks()[o0[k - 1]].base, TAG_BYTES as int);
        }
        if k + 1 < o0.len() {
            assert(pre.order_ok_at(k + 1));
            assert(pre.blk_inv(o0[k + 1]));
            lemma_wi_add(pre.blocks()[o0[k + 1]].base, 2 * TAG_BYTES);
        }
        vstd::arithmetic::div_mod::lemma_add_mod_noop(b.base, TAG_BYTES as int, 4);
        lemma_align_up_add(b.base + TAG_BYTES, dest + size - b.base - TAG_BYTES, 4);
        assert(!pre.alloc_map().dom().contains(dest)) by {
            if pre.alloc_map().dom().contains(dest) {
                assert(pre.alloc_ok(dest));
                let ra = pre.alloc_map()[dest];
                let ia = choose|i: int|
                    0 <= i < n && (#[trigger] pre.blocks()[i]).base == ra.base
                        && !pre.blocks()[i].free && ra.raw <= pre.blocks()[i].size;
                assert(ia != j);
                assert(pre.blk_inv(ia));
                pre.lemma_blocks_separated(ia, j);
                assert(false);
            }
        }
        assert forall|ad: int|
            post.alloc_map().dom().contains(ad) implies #[trigger] post.alloc_ok(ad) by {
            if ad == dest {
                assert(b1[j].base == rec.base && !b1[j].free && rec.raw <= b1[j].size);
                assert(post.alloc_ok(ad));
            } else {
                assert(pre.alloc_ok(ad));
                let ra = pre.alloc_map()[ad];
                let ia = choose|i: int|
                    0 <= i < n && (#[trigger] pre.blocks()[i]).base == ra.base
                        && !pre.blocks()[i].free && ra.raw <= pre.blocks()[i].size;
                assert(ia != j);
                assert(pre.blk_inv(ia));
                pre.lemma_blocks_separated(ia, j);
                if k > 0 {
                    assert(ia != o0[k - 1]);
                    pre.lemma_blocks_separated(ia, o0[k - 1]);
                }
                if k + 1 < o0.len() {
                    assert(ia != o0[k + 1]);
                    pre.lemma_blocks_separated(ia, o0[k + 1]);
                }
                lemma_wi_add(ra.base, TAG_BYTES + ra.raw);
                assert(!Self::split_touched(pre, k, raw, needed, wi(ra.base + TAG_BYTES
                    + ra.raw)));
                assert(post.mem()[wi(ra.base + TAG_BYTES + ra.raw)] == pre.mem()[wi(ra.base
                    + TAG_BYTES + ra.raw)]);
                let i1 = if ia < j {
                    ia
                } else {
                    ia + 1
                };
                assert(b1[i1].base == ra.base && !b1[i1].free && ra.raw <= b1[i1].size);
                assert(post.alloc_ok(ad));
            }
        }
        assert forall|a1: int, a2: int|
            post.alloc_map().dom().contains(a1) && post.alloc_map().dom().contains(a2) && a1
                != a2 implies post.alloc_map()[a1].base != post.alloc_map()[a2].base by {
            if a1 == dest || a2 == dest {
                let ao = if a1 == dest {
                    a2
                } else {
                    a1
                };
                assert(pre.alloc_ok(ao));
                let ra = pre.alloc_map()[ao];
                let ia = choose|i: int|
                    0 <= i < n && (#[trigger] pre.blocks()[i]).base == ra.base
                        && !pre.blocks()[i].free && ra.raw <= pre.blocks()[i].size;
                if ia != j {
                    pre.lemma_blocks_separated(ia, j);
                }
                assert(ra.base != b.base);
            } else {
                assert(pre.alloc_ok(a1));
                assert(pre.alloc_ok(a2));
            }
        }
        assert(post.live_allocs() =~= pre.live_allocs().insert(dest, size));
    }

    /// After a whole-block allocation, the physical blocks are well formed.
    #[verifier::rlimit(100)]
    proof fn lemma_whole_blocks(
        pre: Heap,
        post: Heap,
        k: int,
        dest: int,
        size: int,
        raw: int,
    )
        requires
            Self::alloc_pre(pre, k, dest, size, raw),
            raw <= pre.blocks()[pre.free_order()[k]].size,
            Self::whole_shape(pre, post, k, dest, size, raw),
        ensures
            post.blocks_inv(),
    {
        let j = pre.free_order()[k];
        let b = pre.blocks()[j];
        let n = pre.blocks().len() as int;
        let o0 = pre.free_order();
        let b1 = post.blocks();
        assert(pre.order_ok_at(k));
        assert(pre.blk_inv(j));
        lemma_wi_add(b.base, TAG_BYTES + b.size);
        lemma_wi_add(b.base, TAG_BYTES + raw);
        if k > 0 {
            assert(pre.order_ok_at(k - 1));
            assert(o0[k - 1] != o0[k]);
            assert(pre.blk_inv(o0[k - 1]));
            lemma_wi_add(pre.blocks()[o0[k - 1]].base, TAG_BYTES as int);
            pre.lemma_blocks_separated(o0[k - 1], j);
        }
        if k + 1 < o0.len() {
            assert(pre.order_ok_at(k + 1));
            assert(o0[k] != o0[k + 1]);
            assert(pre.blk_inv(o0[k + 1]));
            lemma_wi_add(pre.blocks()[o0[k + 1]].base, 2 * TAG_BYTES);
            pre.lemma_blocks_separated(o0[k + 1], j);
        }
        assert forall|x: int| 0 <= x < b1.len() implies #[trigger] post.blk_inv(x) by {
            if x == j {
                assert(post.blk_inv(x));
            } else {
                let bx = pre.blocks()[x];
                assert(pre.blk_inv(x));
                lemma_wi_add(bx.base, TAG_BYTES + bx.size);
                pre.lemma_blocks_separated(x, j);
                if k > 0 && x != o0[k - 1] {
                    pre.lemma_blocks_separated(x, o0[k - 1]);
                }
                if k + 1 < o0.len() && x != o0[k + 1] {
                    pre.lemma_blocks_separated(x, o0[k + 1]);
                }
                assert(!Self::whole_touched(pre, k, raw, wi(bx.base)));
                assert(!Self::whole_touched(pre, k, raw, wi(bx.base + TAG_BYTES + bx.size)));
                assert(post.mem()[wi(bx.base)] == pre.mem()[wi(bx.base)]);
                assert(post.mem()[wi(bx.base + TAG_BYTES + bx.size)] == pre.mem()[wi(bx.base
                    + TAG_BYTES + bx.size)]);
                assert(post.blk_inv(x));
            }
        }
        assert forall|x: int| 0 <= x < b1.len() - 1 implies #[trigger] post.contig_at(x) by {
            assert(pre.contig_at(x));
        }
        if n > 0 {
            assert(pre.blk_inv(n - 1));
        }
    }

    /// After a whole-block allocation, the free list is well formed: the
    /// served block's neighbors have been spliced together.
    #[verifier::rlimit(100)]
    proof fn lemma_whole_order(
        pre: Heap,
        post: Heap,
        k: int,
        dest: int,
        size: int,
        raw: int,
    )
        requires
            Self::alloc_pre(pre, k, dest, size, raw),
            raw <= pre.blocks()[pre.free_order()[k]].size,
            Self::whole_shape(pre, post, k, dest, size, raw),
        ensures
            post.order_inv(),
    {
        let j = pre.free_order()[k];
        let b = pre.blocks()[j];
        let n = pre.blocks().len() as int;
        let o0 = pre.free_order();
        let o1 = post.free_order();
        let b1 = post.blocks();
        assert(pre.order_ok_at(k));
        assert(pre.blk_inv(j));
        lemma_wi_add(b.base, TAG_BYTES + b.size);
        lemma_wi_add(b.base, TAG_BYTES + raw);
        if k > 0 {
            assert(pre.order_ok_at(k - 1));
            assert(o0[k - 1] != o0[k]);
            assert(pre.blk_inv(o0[k - 1]));
            lemma_wi_add(pre.blocks()[o0[k - 1]].base, TAG_BYTES as int);
            lemma_wi_add(pre.blocks()[o0[k - 1]].base, 2 * TAG_BYTES);
            lemma_wi_add(pre.blocks()[o0[k - 1]].base, TAG_BYTES + pre.blocks()[o0[k
                - 1]].size);
            pre.lemma_blocks_separated(o0[k - 1], j);
        }
        if k + 1 < o0.len() {
            assert(pre.order_ok_at(k + 1));
            assert(o0[k] != o0[k + 1]);
            assert(pre.blk_inv(o0[k + 1]));
            lemma_wi_add(pre.blocks()[o0[k + 1]].base, TAG_BYTES as int);
            lemma_wi_add(pre.blocks()[o0[k + 1]].base, 2 * TAG_BYTES);
            lemma_wi_add(pre.blocks()[o0[k + 1]].base, TAG_BYTES + pre.blocks()[o0[k
                + 1]].size);
            pre.lemma_blocks_separated(o0[k + 1], j);
            if k > 0 {
                assert(o0[k - 1] != o0[k + 1]);
                pre.lemma_blocks_separated(o0[k - 1], o0[k + 1]);
            }
        }
        assert forall|m: int| 0 <= m < o0.len() && m != k implies #[trigger] o0[m] != j by {
            if m < k {
                assert(o0[m] != o0[k]);
            } else {
                assert(o0[k] != o0[m]);
            }
        }
        assert forall|m: int| 0 <= m < o1.len() implies 0 <= #[trigger] o1[m] < b1.len()
            && b1[o1[m]] == pre.blocks()[o1[m]] by {
            let m0 = if m < k {
                m
            } else {
                m + 1
            };
            assert(pre.order_ok_at(m0));
        }
        assert forall|m: int| 0 <= m < o1.len() implies #[trigger] post.order_ok_at(m) by {
            let m0 = if m < k {
                m
            } else {
                m + 1
            };
            let x = o0[m0];
            let bx = pre.blocks()[x];
            assert(pre.order_ok_at(m0));
            assert(pre.blk_inv(x));
            lemma_wi_add(bx.base, TAG_BYTES as int);
            lemma_wi_add(bx.base, 2 * TAG_BYTES);
            lemma_wi_add(bx.base, TAG_BYTES + bx.size);
            pre.lemma_blocks_separated(x, j);
            if k > 0 && x != o0[k - 1] {
                pre.lemma_blocks_separated(x, o0[k - 1]);
            }
            if k + 1 < o0.len() && x != o0[k + 1] {
                pre.lemma_blocks_separated(x, o0[k + 1]);
            }
            if m0 + 1 < o0.len() {
                assert(pre.order_ok_at(m0 + 1));
            }
            if m0 >= 1 {
                assert(pre.order_ok_at(m0 - 1));
            }
            if m0 + 2 < o0.len() {
                assert(pre.order_ok_at(m0 + 2));
            }
            if m == k - 1 {
                assert(post.mem()[wi(bx.base) + 1] == link_enc(pre.next_expected(k)));
                assert(!Self::whole_touched(pre, k, raw, wi(bx.base) + 2));
            } else if m == k {
                assert(post.mem()[wi(bx.base) + 2] == link_enc(pre.prev_expected(k)));
                assert(!Self::whole_touched(pre, k, raw, wi(bx.base) + 1));
            } else {
                assert(!Self::whole_touched(pre, k, raw, wi(bx.base) + 1));
                assert(!Self::whole_touched(pre, k, raw, wi(bx.base) + 2));
            }
            assert(post.order_ok_at(m));
        }
        assert forall|m1: int, m2: int| 0 <= m1 < m2 < o1.len() implies o1[m1] != o1[m2] by {
            let n1 = if m1 < k {
                m1
            } else {
                m1 + 1
            };
            let n2 = if m2 < k {
                m2
            } else {
                m2 + 1
            };
            assert(o0[n1] != o0[n2]);
        }
        assert forall|i: int|
            0 <= i < b1.len() && (#[trigger] b1[i]).free implies o1.contains(i) by {
            if i != j {
                assert(pre.blocks()[i].free);
                assert(o0.contains(i));
                let m = choose|m: int| 0 <= m < o0.len() && o0[m] == i;
                assert(m != k);
                if m < k {
                    assert(o1[m] == i);
                } else {
                    assert(o1[m - 1] == i);
                }
            }
        }
        if k == 0 {
            if o0.len() > 1 {
                assert(o0[1] != j);
            }
        } else {
            assert(o0[0] != j);
        }
    }

    /// After a whole-block allocation, the live allocations are those of
    /// the pre-state plus the newly served one.
    #[verifier::rlimit(100)]
    proof fn lemma_whole_allocs(
        pre: Heap,
        post: Heap,
        k: int,
        dest: int,
        size: int,
        raw: int,
    )
        requires
            Self::alloc_pre(pre, k, dest, size, raw),
            raw <= pre.blocks()[pre.free_order()[k]].size,
            Self::whole_shape(pre, post, k, dest, size, raw),
        ensures
            post.allocs_inv(),
            !pre.live_allocs().dom().contains(dest),
            post.live_allocs() == pre.live_allocs().insert(dest, size),
    {
        let j = pre.free_order()[k];
        let b = pre.blocks()[j];
        let n = pre.blocks().len() as int;
        let o0 = pre.free_order();
        let b1 = post.blocks();
        let rec = AllocRec { base: b.base, raw: raw, size: size };
        assert(pre.order_ok_at(k));
        assert(pre.blk_inv(j));
        lemma_wi_add(b.base, TAG_BYTES + b.size);
        lemma_wi_add(b.base, TAG_BYTES + raw);
        if k > 0 {
            assert(pre.order_ok_at(k - 1));
            assert(pre.blk_inv(o0[k - 1]));
            lemma_wi_add(pre.blocks()[o0[k - 1]].base, TAG_BYTES as int);
        }
        if k + 1 < o0.len() {
            assert(pre.order_ok_at(k + 1));
            assert(pre.blk_inv(o0[k + 1]));
            lemma_wi_add(pre.blocks()[o0[k + 1]].base, 2 * TAG_BYTES);
        }
        vstd::arithmetic::div_mod::lemma_add_mod_noop(b.base, TAG_BYTES as int, 4);
        lemma_align_up_add(b.base + TAG_BYTES, dest + size - b.base - TAG_BYTES, 4);
        assert(!pre.alloc_map().dom().contains(dest)) by {
            if pre.alloc_map().dom().contains(dest) {
                assert(pre.alloc_ok(dest));
                let ra = pre.alloc_map()[dest];
                let ia = choose|i: int|
                    0 <= i < n && (#[trigger] pre.blocks()[i]).base == ra.base
                        && !pre.blocks()[i].free && ra.raw <= pre.blocks()[i].size;
                assert(ia != j);
                assert(pre.blk_inv(ia));
                pre.lemma_blocks_separated(ia, j);
                assert(false);
            }
        }
        assert forall|ad: int|
            post.alloc_map().dom().contains(ad) implies #[trigger] post.alloc_ok(ad) by {
            if ad == dest {
                assert(b1[j].base == rec.base && !b1[j].free && rec.raw <= b1[j].size);
                assert(post.alloc_ok(ad));
            } else {
                assert(pre.alloc_ok(ad));
                let ra = pre.alloc_map()[ad];
                let ia = choose|i: int|
                    0 <= i < n && (#[trigger] pre.blocks()[i]).base == ra.base
                        && !pre.blocks()[i].free && ra.raw <= pre.blocks()[i].size;
                assert(ia != j);
                assert(pre.blk_inv(ia));
                pre.lemma_blocks_separated(ia, j);
                if k > 0 {
                    assert(ia != o0[k - 1]);
                    pre.lemma_blocks_separated(ia, o0[k - 1]);
                }
                if k + 1 < o0.len() {
                    assert(ia != o0[k + 1]);
                    pre.lemma_blocks_separated(ia, o0[k + 1]);
                }
                lemma_wi_add(ra.base, TAG_BYTES + ra.raw);
                assert(!Self::whole_touched(pre, k, raw, wi(ra.base + TAG_BYTES + ra.raw)));
                assert(post.mem()[wi(ra.base + TAG_BYTES + ra.raw)] == pre.mem()[wi(ra.base
                    + TAG_BYTES + ra.raw)]);
                assert(b1[ia].base == ra.base && !b1[ia].free && ra.raw <= b1[ia].size);
                assert(post.alloc_ok(ad));
            }
        }
        assert forall|a1: int, a2: int|
            post.alloc_map().dom().contains(a1) && post.alloc_map().dom().contains(a2) && a1
                != a2 implies post.alloc_map()[a1].base != post.alloc_map()[a2].base by {
            if a1 == dest || a2 == dest {
                let ao = if a1 == dest {
                    a2
                } else {
                    a1
                };
                assert(pre.alloc_ok(ao));
                let ra = pre.alloc_map()[ao];
                let ia = choose|i: int|
                    0 <= i < n && (#[trigger] pre.blocks()[i]).base == ra.base
                        && !pre.blocks()[i].free && ra.raw <= pre.blocks()[i].size;
                if ia != j {
                    pre.lemma_blocks_separated(ia, j);
                }
                assert(ra.base != b.base);
            } else {
                assert(pre.alloc_ok(a1));
                assert(pre.alloc_ok(a2));
            }
        }
        assert(post.live_allocs() =~= pre.live_allocs().insert(dest, size));
    }

    /// Common premises of both allocation forms: a valid heap, a valid list
    /// position, and the served range sitting inside the block's payload
    /// with `raw` the rounded-up needed size.
    pub open spec fn alloc_pre(pre: Heap, k: int, dest: int, size: int, raw: int) -> bool {
        let j = pre.free_order()[k];
        let b = pre.blocks()[j];
        &&& pre.inv()
        &&& 0 <= k < pre.free_order().len()
        &&& 0 <= size
        &&& 0 <= raw
        &&& raw % 4 == 0
        &&& b.base + TAG_BYTES <= dest
        &&& dest + size <= b.base + TAG_BYTES + raw
        &&& raw == align_up_s(dest + size - b.base - TAG_BYTES, 4)
    }

    /// Splits the free block at list position `k`: its head is served to
    /// the caller and the tail becomes a new free block taking the old
    /// block's place in the free list.
    #[verifier::rlimit(100)]
    fn alloc_split(
        &mut self,
        base: usize,
        size: usize,
        dest: usize,
        raw: usize,
        needed: usize,
        Ghost(k): Ghost<int>,
    )
        requires
            Self::alloc_pre(*old(self), k, dest as int, size as int, raw as int),
            raw <= needed,
            needed % 4 == 0,
            MIN_SIZE <= needed,
            needed + 2 * TAG_BYTES + MIN_SIZE <= old(self).blocks()[old(
                self,
            ).free_order()[k]].size,
            base as int == old(self).blocks()[old(self).free_order()[k]].base,
        ensures
            final(self).inv(),
            final(self).spec_size() == old(self).spec_size(),
            !old(self).live_allocs().dom().contains(dest as int),
            final(self).live_allocs() == old(self).live_allocs().insert(
                dest as int,
                size as int,
            ),
            Self::split_shape(
                *old(self),
                *final(self),
                k,
                dest as int,
                size as int,
                raw as int,
                needed as int,
            ),
    {
        let ghost b0 = old(self).blocks();
        let ghost o0 = old(self).free_order();
        let ghost n = b0.len() as int;
        let ghost j = o0[k];
        let ghost b = b0[j];
        let ghost w0 = old(self).mem();
        let ghost lenw = w0.len() as int;
        proof {
            assert(old(self).order_ok_at(k));
            assert(old(self).blk_inv(j));
            lemma_wi_bound(b.base, lenw);
            lemma_wi_add(b.base, TAG_BYTES as int);
            lemma_wi_add(b.base, 2 * TAG_BYTES);
            lemma_wi_add(b.base, TAG_BYTES + b.size);
            lemma_wi_bound(b.base + TAG_BYTES + b.size, lenw);
            lemma_wi_add(b.base, TAG_BYTES + raw);
            lemma_wi_bound(b.base + TAG_BYTES + raw, lenw);
            lemma_wi_add(b.base, TAG_BYTES + needed);
            lemma_wi_bound(b.base + TAG_BYTES + needed, lenw);
            lemma_wi_add(b.base, needed + 2 * TAG_BYTES);
            lemma_wi_bound(b.base + needed + 2 * TAG_BYTES, lenw);
            lemma_wi_add(b.base + needed + 2 * TAG_BYTES, TAG_BYTES as int);
            lemma_wi_bound(b.base + needed + 2 * TAG_BYTES + TAG_BYTES, lenw);
            lemma_wi_add(b.base + needed + 2 * TAG_BYTES, 2 * TAG_BYTES);
            lemma_wi_bound(b.base + needed + 2 * TAG_BYTES + 2 * TAG_BYTES, lenw);
            lemma_wi_add(
                b.base + needed + 2 * TAG_BYTES,
                TAG_BYTES + (b.size - needed - 2 * TAG_BYTES),
            );
        }
        let reg = load_region(&self.words, base);
        let bsize = reg.size();
        let nbase = base + needed + 2 * TAG_BYTES;
        let nsize = bsize - needed - 2 * TAG_BYTES;
        let eg_w = read_word(&self.words, (base + TAG_BYTES + bsize) / 4);
        let eg = BoundaryTag::from_word(eg_w).is_guard();
        let sg = reg.tag().is_guard();
        let mut ntag = BoundaryTag::new();
        ntag.init(nsize, true, false);
        write_word(&mut self.words, nbase / 4, ntag.to_word());
        write_word(&mut self.words, nbase / 4 + 1, link_word(reg.next()));
        write_word(&mut self.words, nbase / 4 + 2, link_word(reg.prev()));
        let mut netag = BoundaryTag::new();
        netag.init(nsize, true, eg);
        write_word(&mut self.words, (nbase + TAG_BYTES + nsize) / 4, netag.to_word());
        let mut atag = BoundaryTag::new();
        atag.init(raw, false, false);
        write_word(&mut self.words, (base + TAG_BYTES + raw) / 4, atag.to_word());
        let mut stag = BoundaryTag::new();
        stag.init(needed, false, sg);
        write_word(&mut self.words, base / 4, stag.to_word());
        let mut setag = BoundaryTag::new();
        setag.init(needed, false, false);
        write_word(&mut self.words, (base + TAG_BYTES + needed) / 4, setag.to_word());
        match reg.prev() {
            Some(p) => {
                if p == HEAD_ADDR {
                    proof {
                        if k > 0 {
                            assert(old(self).order_ok_at(k - 1));
                            assert(old(self).blk_inv(o0[k - 1]));
                            assert(false);
                        }
                    }
                    self.first.set_next(Some(nbase));
                } else {
                    proof {
                        assert(k > 0);
                        assert(old(self).order_ok_at(k - 1));
                        assert(old(self).blk_inv(o0[k - 1]));
                        lemma_wi_add(b0[o0[k - 1]].base, TAG_BYTES as int);
                        lemma_wi_bound(b0[o0[k - 1]].base + TAG_BYTES, lenw);
                        old(self).lemma_blocks_separated(o0[k - 1], j);
                    }
                    write_word(&mut self.words, p / 4 + 1, link_word(Some(nbase)));
                }
            }
            None => {
                proof {
                    assert(false);
                }
            }
        }
        match reg.next() {
            Some(nx) => {
                proof {
                    assert(k + 1 < o0.len());
                    assert(old(self).order_ok_at(k + 1));
                    assert(old(self).blk_inv(o0[k + 1]));
                    lemma_wi_add(b0[o0[k + 1]].base, 2 * TAG_BYTES);
                    lemma_wi_bound(b0[o0[k + 1]].base + 2 * TAG_BYTES, lenw);
                    old(self).lemma_blocks_separated(o0[k + 1], j);
                    if k > 0 {
                        assert(o0[k - 1] != o0[k + 1]);
                        old(self).lemma_blocks_separated(o0[k - 1], o0[k + 1]);
                    }
                }
                write_word(&mut self.words, nx / 4 + 2, link_word(Some(nbase)));
            }
            None => {}
        }
        proof {
            self.blocks@ = Seq::new(
                (n + 1) as nat,
                |x: int|
                    if x < j {
                        b0[x]
                    } else if x == j {
                        Block { base: b.base, size: needed as int, free: false }
                    } else if x == j + 1 {
                        Block {
                            base: b.base + needed + 2 * TAG_BYTES,
                            size: b.size - needed - 2 * TAG_BYTES,
                            free: true,
                        }
                    } else {
                        b0[x - 1]
                    },
            );
            self.order@ = Seq::new(
                o0.len(),
                |m: int|
                    if m == k {
                        j + 1
                    } else if o0[m] > j {
                        o0[m] + 1
                    } else {
                        o0[m]
                    },
            );
            self.allocs@ = old(self).alloc_map().insert(
                dest as int,
                AllocRec { base: b.base, raw: raw as int, size: size as int },
            );
            assert(Self::split_shape(
                *old(self),
                *self,
                k,
                dest as int,
                size as int,
                raw as int,
                needed as int,
            ));
            Self::lemma_split_blocks(
                *old(self),
                *self,
                k,
                dest as int,
                size as int,
                raw as int,
                needed as int,
            );
            Self::lemma_split_order(
                *old(self),
                *self,
                k,
                dest as int,
                size as int,
                raw as int,
                needed as int,
            );
            Self::lemma_split_allocs(
                *old(self),
                *self,
                k,
                dest as int,
                size as int,
                raw as int,
                needed as int,
            );
        }
    }

    /// Serves the whole free block at list position `k`: it is marked
    /// occupied and removed from the free list, with a breadcrumb tag
    /// recording the needed size when it differs from the block size.
    #[verifier::rlimit(100)]
    fn alloc_whole(
        &mut self,
        base: usize,
        size: usize,
        dest: usize,
        raw: usize,
        Ghost(k): Ghost<int>,
    )
        requires
            Self::alloc_pre(*old(self), k, dest as int, size as int, raw as int),
            raw <= old(self).blocks()[old(self).free_order()[k]].size,
            base as int == old(self).blocks()[old(self).free_order()[k]].base,
        ensures
            final(self).inv(),
            final(self).spec_size() == old(self).spec_size(),
            !old(self).live_allocs().dom().contains(dest as int),
            final(self).live_allocs() == old(self).live_allocs().insert(
                dest as int,
                size as int,
            ),
            Self::whole_shape(*old(self), *final(self), k, dest as int, size as int,
                raw as int),
    {
        let ghost b0 = old(self).blocks();
        let ghost o0 = old(self).free_order();
        let ghost n = b0.len() as int;
        let ghost j = o0[k];
        let ghost b = b0[j];
        let ghost w0 = old(self).mem();
        let ghost lenw = w0.len() as int;
        proof {
            assert(old(self).order_ok_at(k));
            assert(old(self).blk_inv(j));
            lemma_wi_bound(b.base, lenw);
            lemma_wi_add(b.base, TAG_BYTES as int);
            lemma_wi_add(b.base, 2 * TAG_BYTES);
            lemma_wi_add(b.base, TAG_BYTES + b.size);
            lemma_wi_bound(b.base + TAG_BYTES + b.size, lenw);
            lemma_wi_add(b.base, TAG_BYTES + raw);
            lemma_wi_bound(b.base + TAG_BYTES + raw, lenw);
        }
        let reg = load_region(&self.words, base);
        let bsize = reg.size();
        let eg_w = read_word(&self.words, (base + TAG_BYTES + bsize) / 4);
        let eg = BoundaryTag::from_word(eg_w).is_guard();
        let sg = reg.tag().is_guard();
        let mut atag = BoundaryTag::new();
        atag.init(raw, false, false);
        write_word(&mut self.words, (base + TAG_BYTES + raw) / 4, atag.to_word());
        let mut stag = BoundaryTag::new();
        stag.init(bsize, false, sg);
        write_word(&mut self.words, base / 4, stag.to_word());
        let mut etag = BoundaryTag::new();
        etag.init(bsize, false, eg);
        write_word(&mut self.words, (base + TAG_BYTES + bsize) / 4, etag.to_word());
        match reg.prev() {
            Some(p) => {
                if p == HEAD_ADDR {
                    proof {
                        if k > 0 {
                            assert(old(self).order_ok_at(k - 1));
                            assert(old(self).blk_inv(o0[k - 1]));
                            assert(false);
                        }
                    }
                    self.first.set_next(reg.next());
                } else {
                    proof {
                        assert(k > 0);
                        assert(old(self).order_ok_at(k - 1));
                        assert(old(self).blk_inv(o0[k - 1]));
                        lemma_wi_add(b0[o0[k - 1]].base, TAG_BYTES as int);
                        lemma_wi_bound(b0[o0[k - 1]].base + TAG_BYTES, lenw);
                        old(self).lemma_blocks_separated(o0[k - 1], j);
                    }
                    write_word(&mut self.words, p / 4 + 1, link_word(reg.next()));
                }
            }
            None => {
                proof {
                    assert(false);
                }
            }
        }
        match reg.next() {
            Some(nx) => {
                proof {
                    assert(k + 1 < o0.len());
                    assert(old(self).order_ok_at(k + 1));
                    assert(old(self).blk_inv(o0[k + 1]));
                    lemma_wi_add(b0[o0[k + 1]].base, 2 * TAG_BYTES);
                    lemma_wi_bound(b0[o0[k + 1]].base + 2 * TAG_BYTES, lenw);
                    old(self).lemma_blocks_separated(o0[k + 1], j);
                    if k > 0 {
                        assert(o0[k - 1] != o0[k + 1]);
                        old(self).lemma_blocks_separated(o0[k - 1], o0[k + 1]);
                    }
                }
                write_word(&mut self.words, nx / 4 + 2, link_word(reg.prev()));
            }
            None => {}
        }
        proof {
            self.blocks@ = Seq::new(
                n as nat,
                |x: int|
                    if x == j {
                        Block { base: b.base, size: b.size, free: false }
                    } else {
                        b0[x]
                    },
            );
            self.order@ = Seq::new(
                (o0.len() - 1) as nat,
                |m: int|
                    if m < k {
                        o0[m]
                    } else {
                        o0[m + 1]
                    },
            );
            self.allocs@ = old(self).alloc_map().insert(
                dest as int,
                AllocRec { base: b.base, raw: raw as int, size: size as int },
            );
            assert(Self::whole_shape(*old(self), *self, k, dest as int, size as int,
                raw as int));
            Self::lemma_whole_blocks(*old(self), *self, k, dest as int, size as int,
                raw as int);
            Self::lemma_whole_order(*old(self), *self, k, dest as int, size as int,
                raw as int);
            Self::lemma_whole_allocs(*old(self), *self, k, dest as int, size as int,
                raw as int);
        }
    }

    /// Serves a request from the free block at list position `k`, splitting
    /// it when the remainder would still form a valid free block.
    fn allocate_block(
        &mut self,
        base: usize,
        size: usize,
        align: usize,
        Ghost(k): Ghost<int>,
    ) -> (addr: usize)
        requires
            old(self).inv(),
            spec_is_pow2(align as int),
            align <= MAX_EXTENT,
            0 <= k < old(self).free_order().len(),
            base == old(self).blocks()[old(self).free_order()[k]].base,
            sufficient_spec(
                base as int,
                old(self).blocks()[old(self).free_order()[k]].size,
                size as int,
                align as int,
            ),
        ensures
            final(self).inv(),
            final(self).spec_size() == old(self).spec_size(),
            addr as int == align_up_s(base as int + TAG_BYTES, align as int),
            addr % align == 0,
            addr + size <= final(self).spec_size(),
            !old(self).live_allocs().dom().contains(addr as int),
            final(self).live_allocs() == old(self).live_allocs().insert(
                addr as int,
                size as int,
            ),
            ({
                let b = old(self).blocks()[old(self).free_order()[k]];
                let raw = align_up_s(addr + size - b.base - TAG_BYTES, 4);
                let needed: int = if raw < MIN_SIZE {
                    MIN_SIZE as int
                } else {
                    raw
                };
                if b.size - needed >= 2 * TAG_BYTES + MIN_SIZE {
                    Self::split_shape(
                        *old(self),
                        *final(self),
                        k,
                        addr as int,
                        size as int,
                        raw,
                        needed,
                    )
                } else {
                    Self::whole_shape(
                        *old(self),
                        *final(self),
                        k,
                        addr as int,
                        size as int,
                        raw,
                    )
                }
            }),
    {
        let ghost j = old(self).free_order()[k];
        let ghost b = old(self).blocks()[j];
        proof {
            assert(old(self).order_ok_at(k));
            assert(old(self).blk_inv(j));
            lemma_pow2_4();
        }
        let reg = load_region(&self.words, base);
        let bsize = reg.size();
        let a = base + TAG_BYTES;
        let dest = align_up(a, align);
        let fp = dest - a;
        let raw = align_up(fp + size, TAG_BYTES);
        proof {
            lemma_align4_exact(b.size);
            vstd::arithmetic::div_mod::lemma_div_is_ordered(fp + size + 3, b.size + 3, 4);
            assert(raw <= bsize);
        }
        let needed = if raw < MIN_SIZE {
            MIN_SIZE
        } else {
            raw
        };
        if bsize - needed >= 2 * TAG_BYTES + MIN_SIZE {
            self.alloc_split(base, size, dest, raw, needed, Ghost(k));
        } else {
            self.alloc_whole(base, size, dest, raw, Ghost(k));
        }
        dest
    }

    /// Absorbs the free physical successor into the occupied block at
    /// `base`: the block grows over the successor's extent and the
    /// successor leaves the free list.
    #[verifier::rlimit(100)]
    fn absorb_next(&mut self, base: usize, Ghost(i): Ghost<int>, Ghost(kn): Ghost<int>)
        requires
            Self::absorb_pre(*old(self), i, kn),
            base as int == old(self).blocks()[i].base,
        ensures
            final(self).inv(),
            final(self).spec_size() == old(self).spec_size(),
            final(self).live_allocs() == old(self).live_allocs(),
            Self::absorb_shape(*old(self), *final(self), i, kn),
    {
        let ghost b0 = old(self).blocks();
        let ghost o0 = old(self).free_order();
        let ghost n = b0.len() as int;
        let ghost b = b0[i];
        let ghost nb = b0[i + 1];
        let ghost w0 = old(self).mem();
        let ghost lenw = w0.len() as int;
        proof {
            assert(old(self).blk_inv(i));
            assert(old(self).blk_inv(i + 1));
            assert(old(self).contig_at(i));
            assert(old(self).order_ok_at(kn));
            lemma_wi_bound(b.base, lenw);
            lemma_wi_add(b.base, TAG_BYTES + b.size);
            lemma_wi_add(b.base, TAG_BYTES + (b.size + 2 * TAG_BYTES + nb.size));
            lemma_wi_bound(b.base + TAG_BYTES + (b.size + 2 * TAG_BYTES + nb.size), lenw);
            lemma_wi_add(nb.base, TAG_BYTES + nb.size);
            lemma_wi_bound(nb.base + TAG_BYTES + nb.size, lenw);
            lemma_wi_bound(nb.base, lenw);
        }
        let reg = load_region(&self.words, base);
        let bsize = reg.size();
        let sg = reg.tag().is_guard();
        let nbase2 = base + bsize + 2 * TAG_BYTES;
        let nreg = load_region(&self.words, nbase2);
        let nsize = nreg.size();
        let negw = read_word(&self.words, (nbase2 + TAG_BYTES + nsize) / 4);
        let neg = BoundaryTag::from_word(negw).is_guard();
        let ms = bsize + 2 * TAG_BYTES + nsize;
        let mut stag = BoundaryTag::new();
        stag.init(ms, false, sg);
        write_word(&mut self.words, base / 4, stag.to_word());
        let mut etag = BoundaryTag::new();
        etag.init(ms, false, neg);
        write_word(&mut self.words, (base + TAG_BYTES + ms) / 4, etag.to_word());
        match nreg.prev() {
            Some(p) => {
                if p == HEAD_ADDR {
                    proof {
                        if kn > 0 {
                            assert(old(self).order_ok_at(kn - 1));
                            assert(old(self).blk_inv(o0[kn - 1]));
                            assert(false);
                        }
                    }
                    self.first.set_next(nreg.next());
                } else {
                    proof {
                        assert(kn > 0);
                        assert(old(self).order_ok_at(kn - 1));
                        assert(old(self).blk_inv(o0[kn - 1]));
                        lemma_wi_add(b0[o0[kn - 1]].base, TAG_BYTES as int);
                        lemma_wi_bound(b0[o0[kn - 1]].base + TAG_BYTES, lenw);
                        old(self).lemma_blocks_separated(o0[kn - 1], i);
                        old(self).lemma_blocks_separated(o0[kn - 1], i + 1);
                    }
                    write_word(&mut self.words, p / 4 + 1, link_word(nreg.next()));
                }
            }
            None => {
                proof {
                    assert(false);
                }
            }
        }
        match nreg.next() {
            Some(nx) => {
                proof {
                    assert(kn + 1 < o0.len());
                    assert(old(self).order_ok_at(kn + 1));
                    assert(old(self).blk_inv(o0[kn + 1]));
                    lemma_wi_add(b0[o0[kn + 1]].base, 2 * TAG_BYTES);
                    lemma_wi_bound(b0[o0[kn + 1]].base + 2 * TAG_BYTES, lenw);
                    old(self).lemma_blocks_separated(o0[kn + 1], i);
                    old(self).lemma_blocks_separated(o0[kn + 1], i + 1);
                    if kn > 0 {
                        assert(o0[kn - 1] != o0[kn + 1]);
                        old(self).lemma_blocks_separated(o0[kn - 1], o0[kn + 1]);
                    }
                }
                write_word(&mut self.words, nx / 4 + 2, link_word(nreg.prev()));
            }
            None => {}
        }
        proof {
            self.blocks@ = Seq::new(
                (n - 1) as nat,
                |x: int|
                    if x < i {
                        b0[x]
                    } else if x == i {
                        Block {
                            base: b.base,
                            size: b.size + 2 * TAG_BYTES + nb.size,
                            free: false,
                        }
                    } else {
                        b0[x + 1]
                    },
            );
            self.order@ = Seq::new(
                (o0.len() - 1) as nat,
                |m: int|
                    {
                        let x = if m < kn {
                            o0[m]
                        } else {
                            o0[m + 1]
                        };
                        if x > i + 1 {
                            x - 1
                        } else {
                            x
                        }
                    },
            );
            assert(Self::absorb_shape(*old(self), *self, i, kn));
            Self::lemma_absorb_blocks(*old(self), *self, i, kn);
            Self::lemma_absorb_order(*old(self), *self, i, kn);
            Self::lemma_absorb_allocs(*old(self), *self, i, kn);
        }
    }

    /// Merges the occupied block at `base` with its free physical
    /// successor: the block grows over the successor's extent, becomes
    /// free, and splices into the free list in the successor's former
    /// position, predecessor and successor preserved.
    #[verifier::rlimit(100)]
    fn merge_next(
        &mut self,
        base: usize,
        addr: usize,
        Ghost(i): Ghost<int>,
        Ghost(kn): Ghost<int>,
    )
        requires
            Self::merge_next_pre(*old(self), i, kn, addr as int),
            base as int == old(self).blocks()[i].base,
        ensures
            final(self).inv(),
            final(self).spec_size() == old(self).spec_size(),
            final(self).live_allocs() == old(self).live_allocs().remove(addr as int),
            Self::merge_next_shape(*old(self), *final(self), i, kn, addr as int),
    {
        let ghost b0 = old(self).blocks();
        let ghost o0 = old(self).free_order();
        let ghost n = b0.len() as int;
        let ghost b = b0[i];
        let ghost nb = b0[i + 1];
        let ghost w0 = old(self).mem();
        let ghost lenw = w0.len() as int;
        proof {
            assert(old(self).blk_inv(i));
            assert(old(self).blk_inv(i + 1));
            assert(old(self).contig_at(i));
            assert(old(self).order_ok_at(kn));
            lemma_wi_bound(b.base, lenw);
            lemma_wi_add(b.base, TAG_BYTES as int);
            lemma_wi_add(b.base, 2 * TAG_BYTES);
            lemma_wi_bound(b.base + 2 * TAG_BYTES, lenw);
            lemma_wi_add(b.base, TAG_BYTES + b.size);
            lemma_wi_add(b.base, TAG_BYTES + (b.size + 2 * TAG_BYTES + nb.size));
            lemma_wi_bound(b.base + TAG_BYTES + (b.size + 2 * TAG_BYTES + nb.size), lenw);
            lemma_wi_add(nb.base, TAG_BYTES + nb.size);
            lemma_wi_bound(nb.base + TAG_BYTES + nb.size, lenw);
            lemma_wi_bound(nb.base, lenw);
        }
        let reg = load_region(&self.words, base);
        let bsize = reg.size();
        let sg = reg.tag().is_guard();
        let nbase2 = base + bsize + 2 * TAG_BYTES;
        let nreg = load_region(&self.words, nbase2);
        let nsize = nreg.size();
        let negw = read_word(&self.words, (nbase2 + TAG_BYTES + nsize) / 4);
        let neg = BoundaryTag::from_word(negw).is_guard();
        let ms = bsize + 2 * TAG_BYTES + nsize;
        let mut stag = BoundaryTag::new();
        stag.init(ms, true, sg);
        write_word(&mut self.words, base / 4, stag.to_word());
        write_word(&mut self.words, base / 4 + 1, link_word(nreg.next()));
        write_word(&mut self.words, base / 4 + 2, link_word(nreg.prev()));
        let mut etag = BoundaryTag::new();
        etag.init(ms, true, neg);
        write_word(&mut self.words, (base + TAG_BYTES + ms) / 4, etag.to_word());
        match nreg.prev() {
            Some(p) => {
                if p == HEAD_ADDR {
                    proof {
                        if kn > 0 {
                            assert(old(self).order_ok_at(kn - 1));
                            assert(old(self).blk_inv(o0[kn - 1]));
                            assert(false);
                        }
                    }
                    self.first.set_next(Some(base));
                } else {
                    proof {
                        assert(kn > 0);
                        assert(old(self).order_ok_at(kn - 1));
                        assert(old(self).blk_inv(o0[kn - 1]));
                        lemma_wi_add(b0[o0[kn - 1]].base, TAG_BYTES as int);
                        lemma_wi_bound(b0[o0[kn - 1]].base + TAG_BYTES, lenw);
                        old(self).lemma_blocks_separated(o0[kn - 1], i);
                        old(self).lemma_blocks_separated(o0[kn - 1], i + 1);
                    }
                    write_word(&mut self.words, p / 4 + 1, link_word(Some(base)));
                }
            }
            None => {
                proof {
                    assert(false);
                }
            }
        }
        match nreg.next() {
            Some(nx) => {
                proof {
                    assert(kn + 1 < o0.len());
                    assert(old(self).order_ok_at(kn + 1));
                    assert(old(self).blk_inv(o0[kn + 1]));
                    lemma_wi_add(b0[o0[kn + 1]].base, 2 * TAG_BYTES);
                    lemma_wi_bound(b0[o0[kn + 1]].base + 2 * TAG_BYTES, lenw);
                    old(self).lemma_blocks_separated(o0[kn + 1], i);
                    old(self).lemma_blocks_separated(o0[kn + 1], i + 1);
                    if kn > 0 {
                        assert(o0[kn - 1] != o0[kn + 1]);
                        old(self).lemma_blocks_separated(o0[kn - 1], o0[kn + 1]);
                    }
                }
                write_word(&mut self.words, nx / 4 + 2, link_word(Some(base)));
            }
            None => {}
        }
        proof {
            self.blocks@ = Seq::new(
                (n - 1) as nat,
                |x: int|
                    if x < i {
                        b0[x]
                    } else if x == i {
                        Block {
                            base: b.base,
                            size: b.size + 2 * TAG_BYTES + nb.size,
                            free: true,
                        }
                    } else {
                        b0[x + 1]
                    },
            );
            self.order@ = Seq::new(
                o0.len(),
                |m: int|
                    if m == kn {
                        i
                    } else if o0[m] > i + 1 {
                        o0[m] - 1
                    } else {
                        o0[m]
                    },
            );
            self.allocs@ = old(self).alloc_map().remove(addr as int);
            assert(Self::merge_next_shape(*old(self), *self, i, kn, addr as int));
            Self::lemma_merge_next_blocks(*old(self), *self, i, kn, addr as int);
            Self::lemma_merge_next_order(*old(self), *self, i, kn, addr as int);
            Self::lemma_merge_next_allocs(*old(self), *self, i, kn, addr as int);
        }
    }

    /// Extends the free physical predecessor over the occupied block at
    /// `base`; the predecessor keeps its slot in the free list.
    #[verifier::rlimit(100)]
    fn extend_prev(&mut self, base: usize, addr: usize, Ghost(i): Ghost<int>)
        requires
            Self::extend_pre(*old(self), i, addr as int),
            base as int == old(self).blocks()[i].base,
        ensures
            final(self).inv(),
            final(self).spec_size() == old(self).spec_size(),
            final(self).live_allocs() == old(self).live_allocs().remove(addr as int),
            Self::extend_shape(*old(self), *final(self), i, addr as int),
    {
        let ghost b0 = old(self).blocks();
        let ghost n = b0.len() as int;
        let ghost p = b0[i - 1];
        let ghost b = b0[i];
        let ghost lenw = old(self).mem().len() as int;
        proof {
            assert(old(self).blk_inv(i - 1));
            assert(old(self).blk_inv(i));
            assert(old(self).contig_at(i - 1));
            lemma_wi_bound(p.base, lenw);
            lemma_wi_add(p.base, TAG_BYTES + p.size);
            lemma_wi_add(p.base, TAG_BYTES + (p.size + 2 * TAG_BYTES + b.size));
            lemma_wi_add(b.base, TAG_BYTES + b.size);
            lemma_wi_bound(b.base + TAG_BYTES + b.size, lenw);
            lemma_wi_bound(b.base, lenw);
        }
        let pew = read_word(&self.words, (base - TAG_BYTES) / 4);
        let psize = BoundaryTag::from_word(pew).size();
        let pbase = base - 2 * TAG_BYTES - psize;
        let reg = load_region(&self.words, base);
        let bsize = reg.size();
        let egw = read_word(&self.words, (base + TAG_BYTES + bsize) / 4);
        let eg = BoundaryTag::from_word(egw).is_guard();
        let pgw = read_word(&self.words, pbase / 4);
        let pg = BoundaryTag::from_word(pgw).is_guard();
        let ms = psize + 2 * TAG_BYTES + bsize;
        let mut stag = BoundaryTag::new();
        stag.init(ms, true, pg);
        write_word(&mut self.words, pbase / 4, stag.to_word());
        let mut etag = BoundaryTag::new();
        etag.init(ms, true, eg);
        write_word(&mut self.words, (pbase + TAG_BYTES + ms) / 4, etag.to_word());
        proof {
            self.blocks@ = Seq::new(
                (n - 1) as nat,
                |x: int|
                    if x < i - 1 {
                        b0[x]
                    } else if x == i - 1 {
                        Block {
                            base: p.base,
                            size: p.size + 2 * TAG_BYTES + b.size,
                            free: true,
                        }
                    } else {
                        b0[x + 1]
                    },
            );
            self.order@ = Seq::new(
                old(self).free_order().len(),
                |m: int|
                    if old(self).free_order()[m] > i {
                        old(self).free_order()[m] - 1
                    } else {
                        old(self).free_order()[m]
                    },
            );
            self.allocs@ = old(self).alloc_map().remove(addr as int);
            assert(Self::extend_shape(*old(self), *self, i, addr as int));
            Self::lemma_extend_blocks(*old(self), *self, i, addr as int);
            Self::lemma_extend_order(*old(self), *self, i, addr as int);
            Self::lemma_extend_allocs(*old(self), *self, i, addr as int);
        }
    }

    /// Marks the occupied block at `base` free and inserts it at the head
    /// of the free list (list order is insertion order, not address
    /// order).
    #[verifier::rlimit(100)]
    fn insert_free(&mut self, base: usize, addr: usize, Ghost(i): Ghost<int>)
        requires
            Self::insertf_pre(*old(self), i, addr as int),
            base as int == old(self).blocks()[i].base,
        ensures
            final(self).inv(),
            final(self).spec_size() == old(self).spec_size(),
            final(self).live_allocs() == old(self).live_allocs().remove(addr as int),
            Self::insertf_shape(*old(self), *final(self), i, addr as int),
    {
        let ghost b0 = old(self).blocks();
        let ghost o0 = old(self).free_order();
        let ghost n = b0.len() as int;
        let ghost b = b0[i];
        let ghost lenw = old(self).mem().len() as int;
        proof {
            assert(old(self).blk_inv(i));
            lemma_wi_bound(b.base, lenw);
            lemma_wi_add(b.base, TAG_BYTES as int);
            lemma_wi_add(b.base, 2 * TAG_BYTES);
            lemma_wi_bound(b.base + 2 * TAG_BYTES, lenw);
            lemma_wi_add(b.base, TAG_BYTES + b.size);
            lemma_wi_bound(b.base + TAG_BYTES + b.size, lenw);
            if o0.len() > 0 {
                assert(old(self).order_ok_at(0));
                assert(old(self).blk_inv(o0[0]));
            }
        }
        let reg = load_region(&self.words, base);
        let bsize = reg.size();
        let sg = reg.tag().is_guard();
        let egw = read_word(&self.words, (base + TAG_BYTES + bsize) / 4);
        let eg = BoundaryTag::from_word(egw).is_guard();
        let mut stag = BoundaryTag::new();
        stag.init(bsize, true, sg);
        write_word(&mut self.words, base / 4, stag.to_word());
        let mut etag = BoundaryTag::new();
        etag.init(bsize, true, eg);
        write_word(&mut self.words, (base + TAG_BYTES + bsize) / 4, etag.to_word());
        let oldf = self.first.next();
        write_word(&mut self.words, base / 4 + 1, link_word(oldf));
        write_word(&mut self.words, base / 4 + 2, link_word(Some(HEAD_ADDR)));
        match oldf {
            Some(f) => {
                proof {
                    assert(o0.len() > 0);
                    assert(old(self).order_ok_at(0));
                    assert(old(self).blk_inv(o0[0]));
                    lemma_wi_add(b0[o0[0]].base, 2 * TAG_BYTES);
                    lemma_wi_bound(b0[o0[0]].base + 2 * TAG_BYTES, lenw);
                    old(self).lemma_blocks_separated(o0[0], i);
                }
                write_word(&mut self.words, f / 4 + 2, link_word(Some(base)));
            }
            None => {}
        }
        self.first.set_next(Some(base));
        proof {
            self.blocks@ = Seq::new(
                n as nat,
                |x: int|
                    if x == i {
                        Block { base: b.base, size: b.size, free: true }
                    } else {
                        b0[x]
                    },
            );
            self.order@ = Seq::new(
                (o0.len() + 1) as nat,
                |m: int|
                    if m == 0 {
                        i
                    } else {
                        o0[m - 1]
                    },
            );
            self.allocs@ = old(self).alloc_map().remove(addr as int);
            assert(Self::insertf_shape(*old(self), *self, i, addr as int));
            Self::lemma_insertf_blocks(*old(self), *self, i, addr as int);
            Self::lemma_insertf_order(*old(self), *self, i, addr as int);
            Self::lemma_insertf_allocs(*old(self), *self, i, addr as int);
        }
    }

    /// Frees the allocation previously returned at `addr` with the same
    /// `size`: the block's header is recovered from the tag just past the
    /// payload, the block is marked free, and it is merged with whichever
    /// physical neighbors are free.  A merge keeps the neighbor's place in
    /// the free list — the following neighbor's slot, or the preceding
    /// neighbor's own slot; only when no merge happened is the block
    /// inserted at the head of the list.  The resulting state always holds
    /// one free block spanning the freed block together with every free
    /// neighbor it had, tag overhead included.
    #[verifier::rlimit(100)]
    pub fn deallocate(&mut self, addr: usize, size: usize)
        requires
            old(self).inv(),
            old(self).live_allocs().dom().contains(addr as int),
            old(self).live_allocs()[addr as int] == size,
        ensures
            final(self).inv(),
            final(self).spec_size() == old(self).spec_size(),
            final(self).live_allocs() == old(self).live_allocs().remove(addr as int),
            exists|i: int|
                {
                    &&& 0 <= i < old(self).blocks().len()
                    &&& !(#[trigger] old(self).blocks()[i]).free
                    &&& old(self).blocks()[i].base + TAG_BYTES <= addr
                    &&& addr + size <= old(self).blocks()[i].base + TAG_BYTES + old(
                        self,
                    ).blocks()[i].size
                    &&& ({
                        let pf = i > 0 && old(self).blocks()[i - 1].free;
                        let nf = i + 1 < old(self).blocks().len() && old(self).blocks()[i
                            + 1].free;
                        let mb = if pf {
                            old(self).blocks()[i - 1].base
                        } else {
                            old(self).blocks()[i].base
                        };
                        let me = if nf {
                            old(self).blocks()[i + 1].base + old(self).blocks()[i + 1].size
                                + 2 * TAG_BYTES
                        } else {
                            old(self).blocks()[i].base + old(self).blocks()[i].size + 2
                                * TAG_BYTES
                        };
                        exists|x: int|
                            0 <= x < final(self).blocks().len()
                                && (#[trigger] final(self).blocks()[x]) == (Block {
                                base: mb,
                                size: me - mb - 2 * TAG_BYTES,
                                free: true,
                            })
                    })
                    &&& ({
                        let nf = i + 1 < old(self).blocks().len() && old(self).blocks()[i
                            + 1].free;
                        let pf = i > 0 && old(self).blocks()[i - 1].free;
                        if nf && pf {
                            exists|mid: Heap, kn: int|
                                #![trigger Self::absorb_shape(*old(self), mid, i, kn)]
                                Self::absorb_shape(*old(self), mid, i, kn)
                                    && Self::extend_shape(mid, *final(self), i, addr as int)
                        } else if nf {
                            exists|kn: int|
                                #[trigger] Self::merge_next_shape(
                                    *old(self),
                                    *final(self),
                                    i,
                                    kn,
                                    addr as int,
                                )
                        } else {
                            if pf {
                                Self::extend_shape(*old(self), *final(self), i, addr as int)
                            } else {
                                Self::insertf_shape(
                                    *old(self),
                                    *final(self),
                                    i,
                                    addr as int,
                                )
                            }
                        }
                    })
                },
    {
        let ghost rec = old(self).alloc_map()[addr as int];
        let ghost b0 = old(self).blocks();
        let ghost o0 = old(self).free_order();
        let ghost n = b0.len() as int;
        let ghost i = choose|x: int|
            0 <= x < n && (#[trigger] b0[x]).base == rec.base && !b0[x].free && rec.raw
                <= b0[x].size;
        let ghost b = b0[i];
        let ghost lenw = old(self).mem().len() as int;
        proof {
            assert(old(self).alloc_ok(addr as int));
            assert(old(self).blk_inv(i));
            lemma_pow2_4();
            lemma_wi_add(b.base, TAG_BYTES + rec.raw);
            lemma_wi_bound(b.base + TAG_BYTES + rec.raw, lenw);
            lemma_wi_add(b.base, TAG_BYTES + b.size);
            lemma_wi_bound(b.base + TAG_BYTES + b.size, lenw);
            lemma_wi_bound(b.base, lenw);
        }
        let et = align_up(addr + size, TAG_BYTES);
        let brw = read_word(&self.words, et / 4);
        let bts = BoundaryTag::from_word(brw).size();
        let base = et - bts - TAG_BYTES;
        let reg = load_region(&self.words, base);
        let bsize = reg.size();
        let sg = reg.tag().is_guard();
        let egw = read_word(&self.words, (base + TAG_BYTES + bsize) / 4);
        let eg = BoundaryTag::from_word(egw).is_guard();
        let prev_free = if sg {
            false
        } else {
            proof {
                assert(old(self).blk_inv(i - 1));
                assert(old(self).contig_at(i - 1));
                lemma_wi_add(b0[i - 1].base, TAG_BYTES + b0[i - 1].size);
            }
            let pw = read_word(&self.words, (base - TAG_BYTES) / 4);
            BoundaryTag::from_word(pw).is_free()
        };
        let next_free = if eg {
            false
        } else {
            proof {
                assert(old(self).blk_inv(i + 1));
                assert(old(self).contig_at(i));
                lemma_wi_bound(b0[i + 1].base, lenw);
            }
            let nw = read_word(&self.words, (base + 2 * TAG_BYTES + bsize) / 4);
            BoundaryTag::from_word(nw).is_free()
        };
        let ghost mut kn: int = 0;
        let ghost mut hm = *self;
        if next_free {
            proof {
                assert(o0.contains(i + 1));
                kn = choose|m: int| 0 <= m < o0.len() && #[trigger] o0[m] == i + 1;
            }
            if prev_free {
                self.absorb_next(base, Ghost(i), Ghost(kn));
                proof {
                    hm = *self;
                }
                self.extend_prev(base, addr, Ghost(i));
            } else {
                self.merge_next(base, addr, Ghost(i), Ghost(kn));
            }
        } else {
            if prev_free {
                self.extend_prev(base, addr, Ghost(i));
            } else {
                self.insert_free(base, addr, Ghost(i));
            }
        }
        proof {
            assert(b.base + TAG_BYTES <= addr && addr + size <= b.base + TAG_BYTES
                + b.size);
            let pf = i > 0 && b0[i - 1].free;
            let nf = i + 1 < n && b0[i + 1].free;
            if nf && pf {
                assert(Self::absorb_shape(*old(self), hm, i, kn));
                assert(Self::extend_shape(hm, *self, i, addr as int));
                assert(final(self).blocks()[i - 1].free);
            } else if nf {
                assert(Self::merge_next_shape(*old(self), *self, i, kn, addr as int));
                assert(final(self).blocks()[i].free);
            } else if pf {
                assert(Self::extend_shape(*old(self), *self, i, addr as int));
                assert(final(self).blocks()[i - 1].free);
            } else {
                assert(Self::insertf_shape(*old(self), *self, i, addr as int));
                assert(final(self).blocks()[i].free);
            }
        }
    }

    /// Premises for absorbing the free physical successor of the occupied
    /// block `i`; `kn` is the successor's position in the free list.
    pub open spec fn absorb_pre(pre: Heap, i: int, kn: int) -> bool {
        &&& pre.inv()
        &&& 0 <= i
        &&& i + 1 < pre.blocks().len()
        &&& !pre.blocks()[i].free
        &&& pre.blocks()[i + 1].free
        &&& 0 <= kn < pre.free_order().len()
        &&& pre.free_order()[kn] == i + 1
    }

    /// What absorbing the successor writes: block `i` grows over the
    /// successor's extent and stays occupied; the successor leaves the free
    /// list; all live allocations survive.
    pub open spec fn absorb_shape(pre: Heap, post: Heap, i: int, kn: int) -> bool {
        let b = pre.blocks()[i];
        let nb = pre.blocks()[i + 1];
        let n = pre.blocks().len() as int;
        let ms = b.size + 2 * TAG_BYTES + nb.size;
        &&& post.spec_size() == pre.spec_size()
        &&& post.mem().len() == pre.mem().len()
        &&& post.blocks().len() == n - 1
        &&& post.blocks()[i] == (Block { base: b.base, size: ms, free: false })
        &&& forall|x: int| 0 <= x < i ==> #[trigger] post.blocks()[x] == pre.blocks()[x]
        &&& forall|x: int| i < x < n - 1 ==> #[trigger] post.blocks()[x] == pre.blocks()[x
            + 1]
        &&& post.free_order().len() == pre.free_order().len() - 1
        &&& forall|m: int|
            0 <= m < pre.free_order().len() - 1 ==> #[trigger] post.free_order()[m] == ({
                let x = if m < kn {
                    pre.free_order()[m]
                } else {
                    pre.free_order()[m + 1]
                };
                if x > i + 1 {
                    x - 1
                } else {
                    x
                }
            })
        &&& post.alloc_map() == pre.alloc_map()
        &&& post.head().next == (if kn == 0 {
            pre.next_expected(0)
        } else {
            pre.head().next
        })
        &&& t_size(post.mem()[wi(b.base)]) == ms
        &&& !t_free(post.mem()[wi(b.base)])
        &&& t_guard(post.mem()[wi(b.base)]) == (i == 0)
        &&& t_size(post.mem()[wi(b.base + TAG_BYTES + ms)]) == ms
        &&& !t_free(post.mem()[wi(b.base + TAG_BYTES + ms)])
        &&& t_guard(post.mem()[wi(b.base + TAG_BYTES + ms)]) == (i + 1 == n - 1)
        &&& (kn > 0 ==> post.mem()[wi(pre.blocks()[pre.free_order()[kn - 1]].base) + 1]
            == link_enc(pre.next_expected(kn)))
        &&& (kn + 1 < pre.free_order().len() ==> post.mem()[wi(
            pre.blocks()[pre.free_order()[kn + 1]].base,
        ) + 2] == link_enc(pre.prev_expected(kn)))
        &&& forall|x: int|
            0 <= x < pre.mem().len() && !Self::absorb_touched(pre, i, kn, x)
                ==> post.mem()[x] == pre.mem()[x]
    }

    /// The word indices absorbing the successor may write.
    pub open spec fn absorb_touched(pre: Heap, i: int, kn: int, x: int) -> bool {
        let b = pre.blocks()[i];
        let nb = pre.blocks()[i + 1];
        let ms = b.size + 2 * TAG_BYTES + nb.size;
        ||| x == wi(b.base)
        ||| x == wi(b.base + TAG_BYTES + ms)
        ||| (kn > 0 && x == wi(pre.blocks()[pre.free_order()[kn - 1]].base) + 1)
        ||| (kn + 1 < pre.free_order().len() && x == wi(
            pre.blocks()[pre.free_order()[kn + 1]].base,
        ) + 2)
    }

    /// Premises for merging the occupied block `i` with its free physical
    /// successor while taking the successor's free-list slot; `kn` is that
    /// slot and the live allocation at `addr` is being retired.
    pub open spec fn merge_next_pre(pre: Heap, i: int, kn: int, addr: int) -> bool {
        &&& pre.inv()
        &&& 0 <= i
        &&& i + 1 < pre.blocks().len()
        &&& !pre.blocks()[i].free
        &&& pre.blocks()[i + 1].free
        &&& 0 <= kn < pre.free_order().len()
        &&& pre.free_order()[kn] == i + 1
        &&& pre.alloc_map().dom().contains(addr)
        &&& pre.alloc_map()[addr].base == pre.blocks()[i].base
    }

    /// What merging with the successor writes: block `i` grows over the
    /// successor's extent, becomes free, and splices into the free list in
    /// the successor's former position, predecessor and successor links
    /// preserved; the allocation at `addr` is retired.
    pub open spec fn merge_next_shape(
        pre: Heap,
        post: Heap,
        i: int,
        kn: int,
        addr: int,
    ) -> bool {
        let b = pre.blocks()[i];
        let nb = pre.blocks()[i + 1];
        let n = pre.blocks().len() as int;
        let ms = b.size + 2 * TAG_BYTES + nb.size;
        &&& post.spec_size() == pre.spec_size()
        &&& post.mem().len() == pre.mem().len()
        &&& post.blocks().len() == n - 1
        &&& post.blocks()[i] == (Block { base: b.base, size: ms, free: true })
        &&& forall|x: int| 0 <= x < i ==> #[trigger] post.blocks()[x] == pre.blocks()[x]
        &&& forall|x: int| i < x < n - 1 ==> #[trigger] post.blocks()[x] == pre.blocks()[x
            + 1]
        &&& post.free_order().len() == pre.free_order().len()
        &&& post.free_order()[kn] == i
        &&& forall|m: int|
            0 <= m < pre.free_order().len() && m != kn ==> #[trigger] post.free_order()[m]
                == (if pre.free_order()[m] > i + 1 {
                pre.free_order()[m] - 1
            } else {
                pre.free_order()[m]
            })
        &&& post.alloc_map() == pre.alloc_map().remove(addr)
        &&& post.head().next == (if kn == 0 {
            Some(b.base as usize)
        } else {
            pre.head().next
        })
        &&& t_size(post.mem()[wi(b.base)]) == ms
        &&& t_free(post.mem()[wi(b.base)])
        &&& t_guard(post.mem()[wi(b.base)]) == (i == 0)
        &&& post.mem()[wi(b.base) + 1] == link_enc(pre.next_expected(kn))
        &&& post.mem()[wi(b.base) + 2] == link_enc(pre.prev_expected(kn))
        &&& t_size(post.mem()[wi(b.base + TAG_BYTES + ms)]) == ms
        &&& t_free(post.mem()[wi(b.base + TAG_BYTES + ms)])
        &&& t_guard(post.mem()[wi(b.base + TAG_BYTES + ms)]) == (i + 1 == n - 1)
        &&& (kn > 0 ==> post.mem()[wi(pre.blocks()[pre.free_order()[kn - 1]].base) + 1]
            == link_enc(Some(b.base as usize)))
        &&& (kn + 1 < pre.free_order().len() ==> post.mem()[wi(
            pre.blocks()[pre.free_order()[kn + 1]].base,
        ) + 2] == link_enc(Some(b.base as usize)))
        &&& forall|x: int|
            0 <= x < pre.mem().len() && !Self::merge_next_touched(pre, i, kn, x)
                ==> post.mem()[x] == pre.mem()[x]
    }

    /// The word indices merging with the successor may write.
    pub open spec fn merge_next_touched(pre: Heap, i: int, kn: int, x: int) -> bool {
        let b = pre.blocks()[i];
        let nb = pre.blocks()[i + 1];
        let ms = b.size + 2 * TAG_BYTES + nb.size;
        ||| x == wi(b.base)
        ||| x == wi(b.base) + 1
        ||| x == wi(b.base) + 2
        ||| x == wi(b.base + TAG_BYTES + ms)
        ||| (kn > 0 && x == wi(pre.blocks()[pre.free_order()[kn - 1]].base) + 1)
        ||| (kn + 1 < pre.free_order().len() && x == wi(
            pre.blocks()[pre.free_order()[kn + 1]].base,
        ) + 2)
    }

    /// Premises for extending the free predecessor over the occupied block
    /// `i`, whose live allocation at `addr` is being retired.
    pub open spec fn extend_pre(pre: Heap, i: int, addr: int) -> bool {
        &&& pre.inv()
        &&& 1 <= i < pre.blocks().len()
        &&& !pre.blocks()[i].free
        &&& pre.blocks()[i - 1].free
        &&& pre.alloc_map().dom().contains(addr)
        &&& pre.alloc_map()[addr].base == pre.blocks()[i].base
    }

    /// What extending the predecessor writes: block `i - 1` grows over
    /// block `i`'s extent, keeping its own slot in the free list; the
    /// allocation at `addr` is retired.
    pub open spec fn extend_shape(pre: Heap, post: Heap, i: int, addr: int) -> bool {
        let p = pre.blocks()[i - 1];
        let b = pre.blocks()[i];
        let n = pre.blocks().len() as int;
        let ms = p.size + 2 * TAG_BYTES + b.size;
        &&& post.spec_size() == pre.spec_size()
        &&& post.mem().len() == pre.mem().len()
        &&& post.blocks().len() == n - 1
        &&& post.blocks()[i - 1] == (Block { base: p.base, size: ms, free: true })
        &&& forall|x: int| 0 <= x < i - 1 ==> #[trigger] post.blocks()[x] == pre.blocks()[x]
        &&& forall|x: int| i <= x < n - 1 ==> #[trigger] post.blocks()[x] == pre.blocks()[x
            + 1]
        &&& post.free_order().len() == pre.free_order().len()
        &&& forall|m: int|
            0 <= m < pre.free_order().len() ==> #[trigger] post.free_order()[m] == (if pre
                .free_order()[m] > i {
                pre.free_order()[m] - 1
            } else {
                pre.free_order()[m]
            })
        &&& post.alloc_map() == pre.alloc_map().remove(addr)
        &&& post.head().next == pre.head().next
        &&& t_size(post.mem()[wi(p.base)]) == ms
        &&& t_free(post.mem()[wi(p.base)])
        &&& t_guard(post.mem()[wi(p.base)]) == (i - 1 == 0)
        &&& t_size(post.mem()[wi(p.base + TAG_BYTES + ms)]) == ms
        &&& t_free(post.mem()[wi(p.base + TAG_BYTES + ms)])
        &&& t_guard(post.mem()[wi(p.base + TAG_BYTES + ms)]) == (i == n - 1)
        &&& forall|x: int|
            0 <= x < pre.mem().len() && !Self::extend_touched(pre, i, x) ==> post.mem()[x]
                == pre.mem()[x]
    }

    /// The word indices extending the predecessor may write.
    pub open spec fn extend_touched(pre: Heap, i: int, x: int) -> bool {
        let p = pre.blocks()[i - 1];
        let b = pre.blocks()[i];
        let ms = p.size + 2 * TAG_BYTES + b.size;
        ||| x == wi(p.base)
        ||| x == wi(p.base + TAG_BYTES + ms)
    }

    /// Premises for freeing the occupied block `i` in place, retiring its
    /// live allocation at `addr`.
    pub open spec fn insertf_pre(pre: Heap, i: int, addr: int) -> bool {
        &&& pre.inv()
        &&& 0 <= i < pre.blocks().len()
        &&& !pre.blocks()[i].free
        &&& pre.alloc_map().dom().contains(addr)
        &&& pre.alloc_map()[addr].base == pre.blocks()[i].base
    }

    /// What freeing block `i` in place writes: both of its tags are marked
    /// free and the block becomes the new head of the free list; the
    /// allocation at `addr` is retired.
    pub open spec fn insertf_shape(pre: Heap, post: Heap, i: int, addr: int) -> bool {
        let b = pre.blocks()[i];
        let n = pre.blocks().len() as int;
        &&& post.spec_size() == pre.spec_size()
        &&& post.mem().len() == pre.mem().len()
        &&& post.blocks().len() == n
        &&& post.blocks()[i] == (Block { base: b.base, size: b.size, free: true })
        &&& forall|x: int| 0 <= x < n && x != i ==> #[trigger] post.blocks()[x]
            == pre.blocks()[x]
        &&& post.free_order().len() == pre.free_order().len() + 1
        &&& post.free_order()[0] == i
        &&& forall|m: int|
            1 <= m < pre.free_order().len() + 1 ==> #[trigger] post.free_order()[m]
                == pre.free_order()[m - 1]
        &&& post.alloc_map() == pre.alloc_map().remove(addr)
        &&& post.head().next == Some(b.base as usize)
        &&& t_size(post.mem()[wi(b.base)]) == b.size
        &&& t_free(post.mem()[wi(b.base)])
        &&& t_guard(post.mem()[wi(b.base)]) == (i == 0)
        &&& t_size(post.mem()[wi(b.base + TAG_BYTES + b.size)]) == b.size
        &&& t_free(post.mem()[wi(b.base + TAG_BYTES + b.size)])
        &&& t_guard(post.mem()[wi(b.base + TAG_BYTES + b.size)]) == (i == n - 1)
        &&& post.mem()[wi(b.base) + 1] == link_enc(pre.head().next)
        &&& post.mem()[wi(b.base) + 2] == link_enc(Some(HEAD_ADDR))
        &&& (pre.free_order().len() > 0 ==> post.mem()[wi(
            pre.blocks()[pre.free_order()[0]].base,
        ) + 2] == link_enc(Some(b.base as usize)))
        &&& forall|x: int|
            0 <= x < pre.mem().len() && !Self::insertf_touched(pre, i, x) ==> post.mem()[x]
                == pre.mem()[x]
    }

    /// The word indices freeing block `i` in place may write.
    pub open spec fn insertf_touched(pre: Heap, i: int, x: int) -> bool {
        let b = pre.blocks()[i];
        ||| x == wi(b.base)
        ||| x == wi(b.base) + 1
        ||| x == wi(b.base) + 2
        ||| x == wi(b.base + TAG_BYTES + b.size)
        ||| (pre.free_order().len() > 0 && x == wi(pre.blocks()[pre.free_order()[0]].base)
            + 2)
    }

    /// After absorbing the successor, the physical blocks are well formed.
    #[verifier::rlimit(100)]
    proof fn lemma_absorb_blocks(pre: Heap, post: Heap, i: int, kn: int)
        requires
            Self::absorb_pre(pre, i, kn),
            Self::absorb_shape(pre, post, i, kn),
        ensures
            post.blocks_inv(),
    {
        let b = pre.blocks()[i];
        let nb = pre.blocks()[i + 1];
        let n = pre.blocks().len() as int;
        let ms = b.size + 2 * TAG_BYTES + nb.size;
        let o0 = pre.free_order();
        let b1 = post.blocks();
        assert(pre.blk_inv(i));
        assert(pre.blk_inv(i + 1));
        assert(pre.contig_at(i));
        lemma_wi_add(b.base, TAG_BYTES + ms);
        lemma_wi_add(b.base, TAG_BYTES + b.size);
        lemma_wi_add(nb.base, TAG_BYTES + nb.size);
        if kn > 0 {
            assert(pre.order_ok_at(kn - 1));
            assert(o0[kn - 1] != o0[kn]);
            assert(pre.blk_inv(o0[kn - 1]));
            lemma_wi_add(pre.blocks()[o0[kn - 1]].base, TAG_BYTES as int);
            pre.lemma_blocks_separated(o0[kn - 1], i + 1);
            pre.lemma_blocks_separated(o0[kn - 1], i);
        }
        if kn + 1 < o0.len() {
            assert(pre.order_ok_at(kn + 1));
            assert(o0[kn] != o0[kn + 1]);
            assert(pre.blk_inv(o0[kn + 1]));
            lemma_wi_add(pre.blocks()[o0[kn + 1]].base, 2 * TAG_BYTES);
            pre.lemma_blocks_separated(o0[kn + 1], i + 1);
            pre.lemma_blocks_separated(o0[kn + 1], i);
        }
        assert forall|x: int| 0 <= x < b1.len() implies #[trigger] post.blk_inv(x) by {
            if x == i {
                assert(post.blk_inv(x));
            } else {
                let ox = if x < i {
                    x
                } else {
                    x + 1
                };
                let bx = pre.blocks()[ox];
                assert(pre.blk_inv(ox));
                lemma_wi_add(bx.base, TAG_BYTES + bx.size);
                pre.lemma_blocks_separated(ox, i);
                pre.lemma_blocks_separated(ox, i + 1);
                if kn > 0 && ox != o0[kn - 1] {
                    pre.lemma_blocks_separated(ox, o0[kn - 1]);
                }
                if kn + 1 < o0.len() && ox != o0[kn + 1] {
                    pre.lemma_blocks_separated(ox, o0[kn + 1]);
                }
                assert(!Self::absorb_touched(pre, i, kn, wi(bx.base)));
                assert(!Self::absorb_touched(pre, i, kn, wi(bx.base + TAG_BYTES + bx.size)));
                assert(post.mem()[wi(bx.base)] == pre.mem()[wi(bx.base)]);
                assert(post.mem()[wi(bx.base + TAG_BYTES + bx.size)] == pre.mem()[wi(bx.base
                    + TAG_BYTES + bx.size)]);
                assert(post.blk_inv(x));
            }
        }
        assert forall|x: int| 0 <= x < b1.len() - 1 implies #[trigger] post.contig_at(x) by {
            if x < i - 1 {
                assert(pre.contig_at(x));
            } else if x == i - 1 {
                assert(pre.contig_at(i - 1));
            } else if x == i {
                assert(pre.contig_at(i + 1));
            } else {
                assert(pre.contig_at(x + 1));
            }
        }
        if i + 1 == n - 1 {
            assert(b1[b1.len() - 1].base + b1[b1.len() - 1].size + 2 * TAG_BYTES
                == post.spec_size());
        } else {
            assert(pre.blk_inv(n - 1));
        }
    }

    /// After absorbing the successor, the free list is well formed: the
    /// successor's neighbors have been spliced together.
    #[verifier::rlimit(100)]
    proof fn lemma_absorb_order(pre: Heap, post: Heap, i: int, kn: int)
        requires
            Self::absorb_pre(pre, i, kn),
            Self::absorb_shape(pre, post, i, kn),
        ensures
            post.order_inv(),
    {
        let b = pre.blocks()[i];
        let nb = pre.blocks()[i + 1];
        let n = pre.blocks().len() as int;
        let ms = b.size + 2 * TAG_BYTES + nb.size;
        let o0 = pre.free_order();
        let o1 = post.free_order();
        let b1 = post.blocks();
        assert(pre.blk_inv(i));
        assert(pre.blk_inv(i + 1));
        assert(pre.contig_at(i));
        assert(pre.order_ok_at(kn));
        lemma_wi_add(b.base, TAG_BYTES + ms);
        lemma_wi_add(b.base, TAG_BYTES + b.size);
        lemma_wi_add(nb.base, TAG_BYTES + nb.size);
        if kn > 0 {
            assert(pre.order_ok_at(kn - 1));
            assert(o0[kn - 1] != o0[kn]);
            assert(pre.blk_inv(o0[kn - 1]));
            lemma_wi_add(pre.blocks()[o0[kn - 1]].base, TAG_BYTES as int);
            lemma_wi_add(pre.blocks()[o0[kn - 1]].base, 2 * TAG_BYTES);
            lemma_wi_add(pre.blocks()[o0[kn - 1]].base, TAG_BYTES + pre.blocks()[o0[kn
                - 1]].size);
            pre.lemma_blocks_separated(o0[kn - 1], i + 1);
            pre.lemma_blocks_separated(o0[kn - 1], i);
        }
        if kn + 1 < o0.len() {
            assert(pre.order_ok_at(kn + 1));
            assert(o0[kn] != o0[kn + 1]);
            assert(pre.blk_inv(o0[kn + 1]));
            lemma_wi_add(pre.blocks()[o0[kn + 1]].base, TAG_BYTES as int);
            lemma_wi_add(pre.blocks()[o0[kn + 1]].base, 2 * TAG_BYTES);
            lemma_wi_add(pre.blocks()[o0[kn + 1]].base, TAG_BYTES + pre.blocks()[o0[kn
                + 1]].size);
            pre.lemma_blocks_separated(o0[kn + 1], i + 1);
            pre.lemma_blocks_separated(o0[kn + 1], i);
            if kn > 0 {
                assert(o0[kn - 1] != o0[kn + 1]);
                pre.lemma_blocks_separated(o0[kn - 1], o0[kn + 1]);
            }
        }
        assert forall|m: int| 0 <= m < o0.len() && m != kn implies #[trigger] o0[m] != i
            + 1 by {
            if m < kn {
                assert(o0[m] != o0[kn]);
            } else {
                assert(o0[kn] != o0[m]);
            }
        }
        assert forall|m: int| 0 <= m < o0.len() implies #[trigger] o0[m] != i by {
            assert(pre.order_ok_at(m));
        }
        assert forall|m: int| 0 <= m < o1.len() implies 0 <= #[trigger] o1[m] < b1.len()
            && b1[o1[m]].base == pre.blocks()[if m < kn {
            o0[m]
        } else {
            o0[m + 1]
        }].base && b1[o1[m]].free by {
            let m0 = if m < kn {
                m
            } else {
                m + 1
            };
            assert(pre.order_ok_at(m0));
        }
        assert forall|m: int| 0 <= m < o1.len() implies #[trigger] post.order_ok_at(m) by {
            let m0 = if m < kn {
                m
            } else {
                m + 1
            };
            let x = o0[m0];
            let bx = pre.blocks()[x];
            assert(pre.order_ok_at(m0));
            assert(pre.blk_inv(x));
            lemma_wi_add(bx.base, TAG_BYTES as int);
            lemma_wi_add(bx.base, 2 * TAG_BYTES);
            lemma_wi_add(bx.base, TAG_BYTES + bx.size);
            pre.lemma_blocks_separated(x, i);
            pre.lemma_blocks_separated(x, i + 1);
            if kn > 0 && x != o0[kn - 1] {
                pre.lemma_blocks_separated(x, o0[kn - 1]);
            }
            if kn + 1 < o0.len() && x != o0[kn + 1] {
                pre.lemma_blocks_separated(x, o0[kn + 1]);
            }
            if m0 + 1 < o0.len() {
                assert(pre.order_ok_at(m0 + 1));
            }
            if m0 >= 1 {
                assert(pre.order_ok_at(m0 - 1));
            }
            if m0 + 2 < o0.len() {
                assert(pre.order_ok_at(m0 + 2));
            }
            if m == kn - 1 {
                assert(post.mem()[wi(bx.base) + 1] == link_enc(pre.next_expected(kn)));
                assert(!Self::absorb_touched(pre, i, kn, wi(bx.base) + 2));
            } else if m == kn {
                assert(post.mem()[wi(bx.base) + 2] == link_enc(pre.prev_expected(kn)));
                assert(!Self::absorb_touched(pre, i, kn, wi(bx.base) + 1));
            } else {
                assert(!Self::absorb_touched(pre, i, kn, wi(bx.base) + 1));
                assert(!Self::absorb_touched(pre, i, kn, wi(bx.base) + 2));
            }
            assert(post.order_ok_at(m));
        }
        assert forall|m1: int, m2: int| 0 <= m1 < m2 < o1.len() implies o1[m1] != o1[m2] by {
            let n1 = if m1 < kn {
                m1
            } else {
                m1 + 1
            };
            let n2 = if m2 < kn {
                m2
            } else {
                m2 + 1
            };
            assert(o0[n1] != o0[n2]);
        }
        assert forall|x: int|
            0 <= x < b1.len() && (#[trigger] b1[x]).free implies o1.contains(x) by {
            let ox = if x < i {
                x
            } else {
                x + 1
            };
            if x != i {
                assert(pre.blocks()[ox].free);
                assert(o0.contains(ox));
                let m = choose|m: int| 0 <= m < o0.len() && o0[m] == ox;
                assert(m != kn);
                if m < kn {
                    assert(o1[m] == x);
                } else {
                    assert(o1[m - 1] == x);
                }
            }
        }
        if kn == 0 {
            if o0.len() > 1 {
                assert(pre.order_ok_at(1));
            }
        } else {
            assert(pre.order_ok_at(0));
        }
    }

    /// After absorbing the successor, every live allocation is still well
    /// recorded: the allocation inside block `i` now sits in a larger
    /// occupied block.
    #[verifier::rlimit(100)]
    proof fn lemma_absorb_allocs(pre: Heap, post: Heap, i: int, kn: int)
        requires
            Self::absorb_pre(pre, i, kn),
            Self::absorb_shape(pre, post, i, kn),
        ensures
            post.allocs_inv(),
            post.live_allocs() == pre.live_allocs(),
    {
        let b = pre.blocks()[i];
        let nb = pre.blocks()[i + 1];
        let n = pre.blocks().len() as int;
        let ms = b.size + 2 * TAG_BYTES + nb.size;
        let o0 = pre.free_order();
        let b1 = post.blocks();
        assert(pre.blk_inv(i));
        assert(pre.blk_inv(i + 1));
        assert(pre.contig_at(i));
        lemma_wi_add(b.base, TAG_BYTES + ms);
        lemma_wi_add(b.base, TAG_BYTES + b.size);
        if kn > 0 {
            assert(pre.order_ok_at(kn - 1));
            assert(pre.blk_inv(o0[kn - 1]));
            lemma_wi_add(pre.blocks()[o0[kn - 1]].base, TAG_BYTES as int);
        }
        if kn + 1 < o0.len() {
            assert(pre.order_ok_at(kn + 1));
            assert(pre.blk_inv(o0[kn + 1]));
            lemma_wi_add(pre.blocks()[o0[kn + 1]].base, 2 * TAG_BYTES);
        }
        assert forall|ad: int|
            post.alloc_map().dom().contains(ad) implies #[trigger] post.alloc_ok(ad) by {
            assert(pre.alloc_ok(ad));
            let ra = pre.alloc_map()[ad];
            let ia = choose|x: int|
                0 <= x < n && (#[trigger] pre.blocks()[x]).base == ra.base
                    && !pre.blocks()[x].free && ra.raw <= pre.blocks()[x].size;
            assert(ia != i + 1);
            assert(pre.blk_inv(ia));
            lemma_wi_add(ra.base, TAG_BYTES + ra.raw);
            if ia != i {
                pre.lemma_blocks_separated(ia, i);
                pre.lemma_blocks_separated(ia, i + 1);
            }
            if kn > 0 && ia != o0[kn - 1] {
                pre.lemma_blocks_separated(ia, o0[kn - 1]);
            }
            if kn + 1 < o0.len() && ia != o0[kn + 1] {
                pre.lemma_blocks_separated(ia, o0[kn + 1]);
            }
            assert(!Self::absorb_touched(pre, i, kn, wi(ra.base + TAG_BYTES + ra.raw)));
            assert(post.mem()[wi(ra.base + TAG_BYTES + ra.raw)] == pre.mem()[wi(ra.base
                + TAG_BYTES + ra.raw)]);
            let i1 = if ia <= i {
                ia
            } else {
                ia - 1
            };
            assert(b1[i1].base == ra.base && !b1[i1].free && ra.raw <= b1[i1].size);
            assert(post.alloc_ok(ad));
        }
        assert(post.live_allocs() =~= pre.live_allocs());
    }

    /// After merging with the successor, the physical blocks are well
    /// formed.
    #[verifier::rlimit(100)]
    proof fn lemma_merge_next_blocks(pre: Heap, post: Heap, i: int, kn: int, addr: int)
        requires
            Self::merge_next_pre(pre, i, kn, addr),
            Self::merge_next_shape(pre, post, i, kn, addr),
        ensures
            post.blocks_inv(),
    {
        let b = pre.blocks()[i];
        let nb = pre.blocks()[i + 1];
        let n = pre.blocks().len() as int;
        let ms = b.size + 2 * TAG_BYTES + nb.size;
        let o0 = pre.free_order();
        let b1 = post.blocks();
        assert(pre.blk_inv(i));
        assert(pre.blk_inv(i + 1));
        assert(pre.contig_at(i));
        lemma_wi_add(b.base, TAG_BYTES + ms);
        lemma_wi_add(b.base, TAG_BYTES + b.size);
        lemma_wi_add(b.base, TAG_BYTES as int);
        lemma_wi_add(b.base, 2 * TAG_BYTES);
        lemma_wi_add(nb.base, TAG_BYTES + nb.size);
        if kn > 0 {
            assert(pre.order_ok_at(kn - 1));
            assert(o0[kn - 1] != o0[kn]);
            assert(pre.blk_inv(o0[kn - 1]));
            lemma_wi_add(pre.blocks()[o0[kn - 1]].base, TAG_BYTES as int);
            pre.lemma_blocks_separated(o0[kn - 1], i + 1);
            pre.lemma_blocks_separated(o0[kn - 1], i);
        }
        if kn + 1 < o0.len() {
            assert(pre.order_ok_at(kn + 1));
            assert(o0[kn] != o0[kn + 1]);
            assert(pre.blk_inv(o0[kn + 1]));
            lemma_wi_add(pre.blocks()[o0[kn + 1]].base, 2 * TAG_BYTES);
            pre.lemma_blocks_separated(o0[kn + 1], i + 1);
            pre.lemma_blocks_separated(o0[kn + 1], i);
        }
        assert forall|x: int| 0 <= x < b1.len() implies #[trigger] post.blk_inv(x) by {
            if x == i {
                assert(post.blk_inv(x));
            } else {
                let ox = if x < i {
                    x
                } else {
                    x + 1
                };
                let bx = pre.blocks()[ox];
                assert(pre.blk_inv(ox));
                lemma_wi_add(bx.base, TAG_BYTES + bx.size);
                pre.lemma_blocks_separated(ox, i);
                pre.lemma_blocks_separated(ox, i + 1);
                if kn > 0 && ox != o0[kn - 1] {
                    pre.lemma_blocks_separated(ox, o0[kn - 1]);
                }
                if kn + 1 < o0.len() && ox != o0[kn + 1] {
                    pre.lemma_blocks_separated(ox, o0[kn + 1]);
                }
                assert(!Self::merge_next_touched(pre, i, kn, wi(bx.base)));
                assert(!Self::merge_next_touched(
                    pre,
                    i,
                    kn,
                    wi(bx.base + TAG_BYTES + bx.size),
                ));
                assert(post.mem()[wi(bx.base)] == pre.mem()[wi(bx.base)]);
                assert(post.mem()[wi(bx.base + TAG_BYTES + bx.size)] == pre.mem()[wi(bx.base
                    + TAG_BYTES + bx.size)]);
                assert(post.blk_inv(x));
            }
        }
        assert forall|x: int| 0 <= x < b1.len() - 1 implies #[trigger] post.contig_at(x) by {
            if x < i - 1 {
                assert(pre.contig_at(x));
            } else if x == i - 1 {
                assert(pre.contig_at(i - 1));
            } else if x == i {
                assert(pre.contig_at(i + 1));
            } else {
                assert(pre.contig_at(x + 1));
            }
        }
        if i + 1 == n - 1 {
            assert(b1[b1.len() - 1].base + b1[b1.len() - 1].size + 2 * TAG_BYTES
                == post.spec_size());
        } else {
            assert(pre.blk_inv(n - 1));
        }
    }

    /// After merging with the successor, the free list is well formed: the
    /// merged block sits in the successor's former slot with its links.
    #[verifier::rlimit(100)]
    proof fn lemma_merge_next_order(pre: Heap, post: Heap, i: int, kn: int, addr: int)
        requires
            Self::merge_next_pre(pre, i, kn, addr),
            Self::merge_next_shape(pre, post, i, kn, addr),
        ensures
            post.order_inv(),
    {
        let b = pre.blocks()[i];
        let nb = pre.blocks()[i + 1];
        let n = pre.blocks().len() as int;
        let ms = b.size + 2 * TAG_BYTES + nb.size;
        let o0 = pre.free_order();
        let o1 = post.free_order();
        let b1 = post.blocks();
        assert(pre.blk_inv(i));
        assert(pre.blk_inv(i + 1));
        assert(pre.contig_at(i));
        assert(pre.order_ok_at(kn));
        lemma_wi_add(b.base, TAG_BYTES + ms);
        lemma_wi_add(b.base, TAG_BYTES + b.size);
        lemma_wi_add(b.base, TAG_BYTES as int);
        lemma_wi_add(b.base, 2 * TAG_BYTES);
        lemma_wi_add(nb.base, TAG_BYTES + nb.size);
        if kn > 0 {
            assert(pre.order_ok_at(kn - 1));
            assert(o0[kn - 1] != o0[kn]);
            assert(pre.blk_inv(o0[kn - 1]));
            lemma_wi_add(pre.blocks()[o0[kn - 1]].base, TAG_BYTES as int);
            lemma_wi_add(pre.blocks()[o0[kn - 1]].base, 2 * TAG_BYTES);
            lemma_wi_add(pre.blocks()[o0[kn - 1]].base, TAG_BYTES + pre.blocks()[o0[kn
                - 1]].size);
            pre.lemma_blocks_separated(o0[kn - 1], i + 1);
            pre.lemma_blocks_separated(o0[kn - 1], i);
        }
        if kn + 1 < o0.len() {
            assert(pre.order_ok_at(kn + 1));
            assert(o0[kn] != o0[kn + 1]);
            assert(pre.blk_inv(o0[kn + 1]));
            lemma_wi_add(pre.blocks()[o0[kn + 1]].base, TAG_BYTES as int);
            lemma_wi_add(pre.blocks()[o0[kn + 1]].base, 2 * TAG_BYTES);
            lemma_wi_add(pre.blocks()[o0[kn + 1]].base, TAG_BYTES + pre.blocks()[o0[kn
                + 1]].size);
            pre.lemma_blocks_separated(o0[kn + 1], i + 1);
            pre.lemma_blocks_separated(o0[kn + 1], i);
            if kn > 0 {
                assert(o0[kn - 1] != o0[kn + 1]);
                pre.lemma_blocks_separated(o0[kn - 1], o0[kn + 1]);
            }
        }
        assert forall|m: int| 0 <= m < o0.len() && m != kn implies #[trigger] o0[m] != i
            + 1 by {
            if m < kn {
                assert(o0[m] != o0[kn]);
            } else {
                assert(o0[kn] != o0[m]);
            }
        }
        assert forall|m: int| 0 <= m < o0.len() implies #[trigger] o0[m] != i by {
            assert(pre.order_ok_at(m));
        }
        assert forall|m: int| 0 <= m < o1.len() && m != kn implies 0 <= #[trigger] o1[m]
            < b1.len() && b1[o1[m]].base == pre.blocks()[o0[m]].base && b1[o1[m]].free by {
            assert(pre.order_ok_at(m));
        }
        assert forall|m: int| 0 <= m < o1.len() implies #[trigger] post.order_ok_at(m) by {
            if m == kn {
                assert(post.order_ok_at(m));
            } else {
                let x = o0[m];
                let bx = pre.blocks()[x];
                assert(pre.order_ok_at(m));
                assert(pre.blk_inv(x));
                lemma_wi_add(bx.base, TAG_BYTES as int);
                lemma_wi_add(bx.base, 2 * TAG_BYTES);
                lemma_wi_add(bx.base, TAG_BYTES + bx.size);
                pre.lemma_blocks_separated(x, i);
                pre.lemma_blocks_separated(x, i + 1);
                if kn > 0 && x != o0[kn - 1] {
                    pre.lemma_blocks_separated(x, o0[kn - 1]);
                }
                if kn + 1 < o0.len() && x != o0[kn + 1] {
                    pre.lemma_blocks_separated(x, o0[kn + 1]);
                }
                if m + 1 < o0.len() && m + 1 != kn {
                    assert(pre.order_ok_at(m + 1));
                }
                if m >= 1 && m - 1 != kn {
                    assert(pre.order_ok_at(m - 1));
                }
                if m == kn - 1 {
                    assert(post.mem()[wi(bx.base) + 1] == link_enc(Some(
                        b.base as usize,
                    )));
                    assert(!Self::merge_next_touched(pre, i, kn, wi(bx.base) + 2));
                } else if m == kn + 1 {
                    assert(post.mem()[wi(bx.base) + 2] == link_enc(Some(
                        b.base as usize,
                    )));
                    assert(!Self::merge_next_touched(pre, i, kn, wi(bx.base) + 1));
                } else {
                    assert(!Self::merge_next_touched(pre, i, kn, wi(bx.base) + 1));
                    assert(!Self::merge_next_touched(pre, i, kn, wi(bx.base) + 2));
                }
                assert(post.order_ok_at(m));
            }
        }
        assert forall|m1: int, m2: int| 0 <= m1 < m2 < o1.len() implies o1[m1] != o1[m2] by {
            assert(o0[m1] != o0[m2]);
        }
        assert forall|x: int|
            0 <= x < b1.len() && (#[trigger] b1[x]).free implies o1.contains(x) by {
            if x == i {
                assert(o1[kn] == x);
            } else {
                let ox = if x < i {
                    x
                } else {
                    x + 1
                };
                assert(pre.blocks()[ox].free);
                assert(o0.contains(ox));
                let m = choose|m: int| 0 <= m < o0.len() && o0[m] == ox;
                assert(m != kn);
                assert(o1[m] == x);
            }
        }
        if kn == 0 {
            assert(b1[o1[0]].base == b.base);
        } else {
            assert(pre.order_ok_at(0));
            assert(o0[0] != i + 1);
        }
    }

    /// After merging with the successor, every remaining live allocation
    /// is still well recorded.
    #[verifier::rlimit(100)]
    proof fn lemma_merge_next_allocs(pre: Heap, post: Heap, i: int, kn: int, addr: int)
        requires
            Self::merge_next_pre(pre, i, kn, addr),
            Self::merge_next_shape(pre, post, i, kn, addr),
        ensures
            post.allocs_inv(),
            post.live_allocs() == pre.live_allocs().remove(addr),
    {
        let b = pre.blocks()[i];
        let nb = pre.blocks()[i + 1];
        let n = pre.blocks().len() as int;
        let ms = b.size + 2 * TAG_BYTES + nb.size;
        let o0 = pre.free_order();
        let b1 = post.blocks();
        assert(pre.blk_inv(i));
        assert(pre.blk_inv(i + 1));
        assert(pre.contig_at(i));
        lemma_wi_add(b.base, TAG_BYTES + ms);
        lemma_wi_add(b.base, TAG_BYTES + b.size);
        lemma_wi_add(b.base, TAG_BYTES as int);
        lemma_wi_add(b.base, 2 * TAG_BYTES);
        if kn > 0 {
            assert(pre.order_ok_at(kn - 1));
            assert(pre.blk_inv(o0[kn - 1]));
            lemma_wi_add(pre.blocks()[o0[kn - 1]].base, TAG_BYTES as int);
        }
        if kn + 1 < o0.len() {
            assert(pre.order_ok_at(kn + 1));
            assert(pre.blk_inv(o0[kn + 1]));
            lemma_wi_add(pre.blocks()[o0[kn + 1]].base, 2 * TAG_BYTES);
        }
        assert forall|ad: int|
            post.alloc_map().dom().contains(ad) implies #[trigger] post.alloc_ok(ad) by {
            assert(ad != addr);
            assert(pre.alloc_map()[ad].base != pre.alloc_map()[addr].base);
            assert(pre.alloc_ok(ad));
            let ra = pre.alloc_map()[ad];
            let ia = choose|x: int|
                0 <= x < n && (#[trigger] pre.blocks()[x]).base == ra.base
                    && !pre.blocks()[x].free && ra.raw <= pre.blocks()[x].size;
            assert(ia != i);
            assert(ia != i + 1);
            assert(pre.blk_inv(ia));
            lemma_wi_add(ra.base, TAG_BYTES + ra.raw);
            pre.lemma_blocks_separated(ia, i);
            pre.lemma_blocks_separated(ia, i + 1);
            if kn > 0 && ia != o0[kn - 1] {
                pre.lemma_blocks_separated(ia, o0[kn - 1]);
            }
            if kn + 1 < o0.len() && ia != o0[kn + 1] {
                pre.lemma_blocks_separated(ia, o0[kn + 1]);
            }
            assert(!Self::merge_next_touched(pre, i, kn, wi(ra.base + TAG_BYTES
                + ra.raw)));
            assert(post.mem()[wi(ra.base + TAG_BYTES + ra.raw)] == pre.mem()[wi(ra.base
                + TAG_BYTES + ra.raw)]);
            let i1 = if ia < i {
                ia
            } else {
                ia - 1
            };
            assert(b1[i1].base == ra.base && !b1[i1].free && ra.raw <= b1[i1].size);
            assert(post.alloc_ok(ad));
        }
        assert forall|a1: int, a2: int|
            post.alloc_map().dom().contains(a1) && post.alloc_map().dom().contains(a2) && a1
                != a2 implies post.alloc_map()[a1].base != post.alloc_map()[a2].base by {
            assert(pre.alloc_map()[a1].base != pre.alloc_map()[a2].base);
        }
        assert(post.live_allocs() =~= pre.live_allocs().remove(addr));
    }

    /// After extending the predecessor, the physical blocks are well
    /// formed.
    #[verifier::rlimit(100)]
    proof fn lemma_extend_blocks(pre: Heap, post: Heap, i: int, addr: int)
        requires
            Self::extend_pre(pre, i, addr),
            Self::extend_shape(pre, post, i, addr),
        ensures
            post.blocks_inv(),
    {
        let p = pre.blocks()[i - 1];
        let b = pre.blocks()[i];
        let n = pre.blocks().len() as int;
        let ms = p.size + 2 * TAG_BYTES + b.size;
        let b1 = post.blocks();
        assert(pre.blk_inv(i - 1));
        assert(pre.blk_inv(i));
        assert(pre.contig_at(i - 1));
        lemma_wi_add(p.base, TAG_BYTES + ms);
        lemma_wi_add(p.base, TAG_BYTES + p.size);
        lemma_wi_add(b.base, TAG_BYTES + b.size);
        assert forall|x: int| 0 <= x < b1.len() implies #[trigger] post.blk_inv(x) by {
            if x == i - 1 {
                assert(post.blk_inv(x));
            } else {
                let ox = if x < i - 1 {
                    x
                } else {
                    x + 1
                };
                let bx = pre.blocks()[ox];
                assert(pre.blk_inv(ox));
                lemma_wi_add(bx.base, TAG_BYTES + bx.size);
                pre.lemma_blocks_separated(ox, i - 1);
                pre.lemma_blocks_separated(ox, i);
                assert(!Self::extend_touched(pre, i, wi(bx.base)));
                assert(!Self::extend_touched(pre, i, wi(bx.base + TAG_BYTES + bx.size)));
                assert(post.mem()[wi(bx.base)] == pre.mem()[wi(bx.base)]);
                assert(post.mem()[wi(bx.base + TAG_BYTES + bx.size)] == pre.mem()[wi(bx.base
                    + TAG_BYTES + bx.size)]);
                assert(post.blk_inv(x));
            }
        }
        assert forall|x: int| 0 <= x < b1.len() - 1 implies #[trigger] post.contig_at(x) by {
            if x < i - 2 {
                assert(pre.contig_at(x));
            } else if x == i - 2 {
                assert(pre.contig_at(i - 2));
            } else if x == i - 1 {
                assert(pre.contig_at(i));
            } else {
                assert(pre.contig_at(x + 1));
            }
        }
        if i == n - 1 {
            assert(b1[b1.len() - 1].base + b1[b1.len() - 1].size + 2 * TAG_BYTES
                == post.spec_size());
        } else {
            assert(pre.blk_inv(n - 1));
        }
    }

    /// After extending the predecessor, the free list is well formed: no
    /// list surgery happened, only block indices above `i` shifted down.
    #[verifier::rlimit(100)]
    proof fn lemma_extend_order(pre: Heap, post: Heap, i: int, addr: int)
        requires
            Self::extend_pre(pre, i, addr),
            Self::extend_shape(pre, post, i, addr),
        ensures
            post.order_inv(),
    {
        let p = pre.blocks()[i - 1];
        let b = pre.blocks()[i];
        let n = pre.blocks().len() as int;
        let ms = p.size + 2 * TAG_BYTES + b.size;
        let o0 = pre.free_order();
        let o1 = post.free_order();
        let b1 = post.blocks();
        assert(pre.blk_inv(i - 1));
        assert(pre.blk_inv(i));
        assert(pre.contig_at(i - 1));
        lemma_wi_add(p.base, TAG_BYTES + ms);
        lemma_wi_add(p.base, TAG_BYTES + p.size);
        lemma_wi_add(p.base, TAG_BYTES as int);
        lemma_wi_add(p.base, 2 * TAG_BYTES);
        assert forall|m: int| 0 <= m < o0.len() implies #[trigger] o0[m] != i by {
            assert(pre.order_ok_at(m));
        }
        assert forall|m: int| 0 <= m < o1.len() implies 0 <= #[trigger] o1[m] < b1.len()
            && b1[o1[m]].base == pre.blocks()[o0[m]].base && b1[o1[m]].free by {
            assert(pre.order_ok_at(m));
        }
        assert forall|m: int| 0 <= m < o1.len() implies #[trigger] post.order_ok_at(m) by {
            let x = o0[m];
            let bx = pre.blocks()[x];
            assert(pre.order_ok_at(m));
            assert(pre.blk_inv(x));
            lemma_wi_add(bx.base, TAG_BYTES as int);
            lemma_wi_add(bx.base, 2 * TAG_BYTES);
            lemma_wi_add(bx.base, TAG_BYTES + bx.size);
            if x != i - 1 {
                pre.lemma_blocks_separated(x, i - 1);
                pre.lemma_blocks_separated(x, i);
            }
            assert(!Self::extend_touched(pre, i, wi(bx.base) + 1));
            assert(!Self::extend_touched(pre, i, wi(bx.base) + 2));
            if m + 1 < o0.len() {
                assert(pre.order_ok_at(m + 1));
            }
            if m >= 1 {
                assert(pre.order_ok_at(m - 1));
            }
            assert(post.order_ok_at(m));
        }
        assert forall|m1: int, m2: int| 0 <= m1 < m2 < o1.len() implies o1[m1] != o1[m2] by {
            assert(o0[m1] != o0[m2]);
        }
        assert forall|x: int|
            0 <= x < b1.len() && (#[trigger] b1[x]).free implies o1.contains(x) by {
            let ox = if x < i {
                x
            } else {
                x + 1
            };
            assert(pre.blocks()[ox].free);
            assert(o0.contains(ox));
            let m = choose|m: int| 0 <= m < o0.len() && o0[m] == ox;
            assert(o1[m] == x);
        }
        if o0.len() > 0 {
            assert(pre.order_ok_at(0));
        }
    }

    /// After extending the predecessor, every remaining live allocation is
    /// still well recorded.
    #[verifier::rlimit(100)]
    proof fn lemma_extend_allocs(pre: Heap, post: Heap, i: int, addr: int)
        requires
            Self::extend_pre(pre, i, addr),
            Self::extend_shape(pre, post, i, addr),
        ensures
            post.allocs_inv(),
            post.live_allocs() == pre.live_allocs().remove(addr),
    {
        let p = pre.blocks()[i - 1];
        let b = pre.blocks()[i];
        let n = pre.blocks().len() as int;
        let ms = p.size + 2 * TAG_BYTES + b.size;
        let b1 = post.blocks();
        assert(pre.blk_inv(i - 1));
        assert(pre.blk_inv(i));
        assert(pre.contig_at(i - 1));
        lemma_wi_add(p.base, TAG_BYTES + ms);
        lemma_wi_add(p.base, TAG_BYTES + p.size);
        assert forall|ad: int|
            post.alloc_map().dom().contains(ad) implies #[trigger] post.alloc_ok(ad) by {
            assert(ad != addr);
            assert(pre.alloc_map()[ad].base != pre.alloc_map()[addr].base);
            assert(pre.alloc_ok(ad));
            let ra = pre.alloc_map()[ad];
            let ia = choose|x: int|
                0 <= x < n && (#[trigger] pre.blocks()[x]).base == ra.base
                    && !pre.blocks()[x].free && ra.raw <= pre.blocks()[x].size;
            assert(ia != i - 1);
            assert(ia != i);
            assert(pre.blk_inv(ia));
            lemma_wi_add(ra.base, TAG_BYTES + ra.raw);
            pre.lemma_blocks_separated(ia, i - 1);
            pre.lemma_blocks_separated(ia, i);
            assert(!Self::extend_touched(pre, i, wi(ra.base + TAG_BYTES + ra.raw)));
            assert(post.mem()[wi(ra.base + TAG_BYTES + ra.raw)] == pre.mem()[wi(ra.base
                + TAG_BYTES + ra.raw)]);
            let i1 = if ia < i {
                ia
            } else {
                ia - 1
            };
            assert(b1[i1].base == ra.base && !b1[i1].free && ra.raw <= b1[i1].size);
            assert(post.alloc_ok(ad));
        }
        assert forall|a1: int, a2: int|
            post.alloc_map().dom().contains(a1) && post.alloc_map().dom().contains(a2) && a1
                != a2 implies post.alloc_map()[a1].base != post.alloc_map()[a2].base by {
            assert(pre.alloc_map()[a1].base != pre.alloc_map()[a2].base);
        }
        assert(post.live_allocs() =~= pre.live_allocs().remove(addr));
    }

    /// After freeing a block in place, the physical blocks are well
    /// formed.
    #[verifier::rlimit(100)]
    proof fn lemma_insertf_blocks(pre: Heap, post: Heap, i: int, addr: int)
        requires
            Self::insertf_pre(pre, i, addr),
            Self::insertf_shape(pre, post, i, addr),
        ensures
            post.blocks_inv(),
    {
        let b = pre.blocks()[i];
        let n = pre.blocks().len() as int;
        let o0 = pre.free_order();
        let b1 = post.blocks();
        assert(pre.blk_inv(i));
        lemma_wi_add(b.base, TAG_BYTES + b.size);
        lemma_wi_add(b.base, TAG_BYTES as int);
        lemma_wi_add(b.base, 2 * TAG_BYTES);
        if o0.len() > 0 {
            assert(pre.order_ok_at(0));
            assert(pre.blk_inv(o0[0]));
            lemma_wi_add(pre.blocks()[o0[0]].base, 2 * TAG_BYTES);
            pre.lemma_blocks_separated(o0[0], i);
        }
        assert forall|x: int| 0 <= x < b1.len() implies #[trigger] post.blk_inv(x) by {
            if x == i {
                assert(post.blk_inv(x));
            } else {
                let bx = pre.blocks()[x];
                assert(pre.blk_inv(x));
                lemma_wi_add(bx.base, TAG_BYTES + bx.size);
                pre.lemma_blocks_separated(x, i);
                if o0.len() > 0 && x != o0[0] {
                    pre.lemma_blocks_separated(x, o0[0]);
                }
                assert(!Self::insertf_touched(pre, i, wi(bx.base)));
                assert(!Self::insertf_touched(pre, i, wi(bx.base + TAG_BYTES + bx.size)));
                assert(post.mem()[wi(bx.base)] == pre.mem()[wi(bx.base)]);
                assert(post.mem()[wi(bx.base + TAG_BYTES + bx.size)] == pre.mem()[wi(bx.base
                    + TAG_BYTES + bx.size)]);
                assert(post.blk_inv(x));
            }
        }
        assert forall|x: int| 0 <= x < b1.len() - 1 implies #[trigger] post.contig_at(x) by {
            assert(pre.contig_at(x));
        }
        if n > 0 {
            assert(pre.blk_inv(n - 1));
        }
    }

    /// After freeing a block in place, the free list is well formed: the
    /// freed block is the new list head.
    #[verifier::rlimit(100)]
    proof fn lemma_insertf_order(pre: Heap, post: Heap, i: int, addr: int)
        requires
            Self::insertf_pre(pre, i, addr),
            Self::insertf_shape(pre, post, i, addr),
        ensures
            post.order_inv(),
    {
        let b = pre.blocks()[i];
        let n = pre.blocks().len() as int;
        let o0 = pre.free_order();
        let o1 = post.free_order();
        let b1 = post.blocks();
        assert(pre.blk_inv(i));
        lemma_wi_add(b.base, TAG_BYTES + b.size);
        lemma_wi_add(b.base, TAG_BYTES as int);
        lemma_wi_add(b.base, 2 * TAG_BYTES);
        if o0.len() > 0 {
            assert(pre.order_ok_at(0));
            assert(pre.blk_inv(o0[0]));
            lemma_wi_add(pre.blocks()[o0[0]].base, TAG_BYTES as int);
            lemma_wi_add(pre.blocks()[o0[0]].base, 2 * TAG_BYTES);
            lemma_wi_add(pre.blocks()[o0[0]].base, TAG_BYTES + pre.blocks()[o0[0]].size);
            pre.lemma_blocks_separated(o0[0], i);
        }
        assert forall|m: int| 0 <= m < o0.len() implies #[trigger] o0[m] != i by {
            assert(pre.order_ok_at(m));
        }
        assert forall|m: int| 0 <= m < o1.len() implies #[trigger] post.order_ok_at(m) by {
            if m == 0 {
                if o0.len() > 0 {
                    assert(pre.order_ok_at(0));
                }
                assert(post.order_ok_at(m));
            } else {
                let x = o0[m - 1];
                let bx = pre.blocks()[x];
                assert(pre.order_ok_at(m - 1));
                assert(pre.blk_inv(x));
                lemma_wi_add(bx.base, TAG_BYTES as int);
                lemma_wi_add(bx.base, 2 * TAG_BYTES);
                lemma_wi_add(bx.base, TAG_BYTES + bx.size);
                pre.lemma_blocks_separated(x, i);
                if o0.len() > 0 && x != o0[0] {
                    pre.lemma_blocks_separated(x, o0[0]);
                }
                if m < o0.len() {
                    assert(pre.order_ok_at(m));
                }
                if m >= 2 {
                    assert(pre.order_ok_at(m - 2));
                }
                if m == 1 {
                    assert(post.mem()[wi(bx.base) + 2] == link_enc(Some(b.base as usize)));
                    assert(!Self::insertf_touched(pre, i, wi(bx.base) + 1));
                } else {
                    assert(!Self::insertf_touched(pre, i, wi(bx.base) + 1));
                    assert(!Self::insertf_touched(pre, i, wi(bx.base) + 2));
                }
                assert(post.order_ok_at(m));
            }
        }
        assert forall|m1: int, m2: int| 0 <= m1 < m2 < o1.len() implies o1[m1] != o1[m2] by {
            if m1 == 0 {
                assert(o0[m2 - 1] != i);
            } else {
                assert(o0[m1 - 1] != o0[m2 - 1]);
            }
        }
        assert forall|x: int|
            0 <= x < b1.len() && (#[trigger] b1[x]).free implies o1.contains(x) by {
            if x == i {
                assert(o1[0] == x);
            } else {
                assert(pre.blocks()[x].free);
                assert(o0.contains(x));
                let m = choose|m: int| 0 <= m < o0.len() && o0[m] == x;
                assert(o1[m + 1] == x);
            }
        }
    }

    /// After freeing a block in place, every remaining live allocation is
    /// still well recorded.
    #[verifier::rlimit(100)]
    proof fn lemma_insertf_allocs(pre: Heap, post: Heap, i: int, addr: int)
        requires
            Self::insertf_pre(pre, i, addr),
            Self::insertf_shape(pre, post, i, addr),
        ensures
            post.allocs_inv(),
            post.live_allocs() == pre.live_allocs().remove(addr),
    {
        let b = pre.blocks()[i];
        let n = pre.blocks().len() as int;
        let o0 = pre.free_order();
        let b1 = post.blocks();
        assert(pre.blk_inv(i));
        lemma_wi_add(b.base, TAG_BYTES + b.size);
        lemma_wi_add(b.base, TAG_BYTES as int);
        lemma_wi_add(b.base, 2 * TAG_BYTES);
        if o0.len() > 0 {
            assert(pre.order_ok_at(0));
            assert(pre.blk_inv(o0[0]));
            lemma_wi_add(pre.blocks()[o0[0]].base, 2 * TAG_BYTES);
            pre.lemma_blocks_separated(o0[0], i);
        }
        assert forall|ad: int|
            post.alloc_map().dom().contains(ad) implies #[trigger] post.alloc_ok(ad) by {
            assert(ad != addr);
            assert(pre.alloc_map()[ad].base != pre.alloc_map()[addr].base);
            assert(pre.alloc_ok(ad));
            let ra = pre.alloc_map()[ad];
            let ia = choose|x: int|
                0 <= x < n && (#[trigger] pre.blocks()[x]).base == ra.base
                    && !pre.blocks()[x].free && ra.raw <= pre.blocks()[x].size;
            assert(ia != i);
            assert(pre.blk_inv(ia));
            lemma_wi_add(ra.base, TAG_BYTES + ra.raw);
            pre.lemma_blocks_separated(ia, i);
            if o0.len() > 0 && ia != o0[0] {
                pre.lemma_blocks_separated(ia, o0[0]);
            }
            assert(!Self::insertf_touched(pre, i, wi(ra.base + TAG_BYTES + ra.raw)));
            assert(post.mem()[wi(ra.base + TAG_BYTES + ra.raw)] == pre.mem()[wi(ra.base
                + TAG_BYTES + ra.raw)]);
            assert(b1[ia].base == ra.base && !b1[ia].free && ra.raw <= b1[ia].size);
            assert(post.alloc_ok(ad));
        }
        assert forall|a1: int, a2: int|
            post.alloc_map().dom().contains(a1) && post.alloc_map().dom().contains(a2) && a1
                != a2 implies post.alloc_map()[a1].base != post.alloc_map()[a2].base by {
            assert(pre.alloc_map()[a1].base != pre.alloc_map()[a2].base);
        }
        assert(post.live_allocs() =~= pre.live_allocs().remove(addr));
    }

    /// Law: live allocations never overlap.  Any two distinct live
    /// allocations occupy disjoint byte ranges of the extent.
    pub proof fn lemma_live_allocations_disjoint(self, a1: int, a2: int)
        requires
            self.inv(),
            self.live_allocs().dom().contains(a1),
            self.live_allocs().dom().contains(a2),
            a1 != a2,
        ensures
            a1 + self.live_allocs()[a1] <= a2 || a2 + self.live_allocs()[a2] <= a1,
    {
        assert(self.alloc_ok(a1));
        assert(self.alloc_ok(a2));
        let r1 = self.alloc_map()[a1];
        let r2 = self.alloc_map()[a2];
        let n = self.blocks().len() as int;
        let i1 = choose|x: int|
            0 <= x < n && (#[trigger] self.blocks()[x]).base == r1.base
                && !self.blocks()[x].free && r1.raw <= self.blocks()[x].size;
        let i2 = choose|x: int|
            0 <= x < n && (#[trigger] self.blocks()[x]).base == r2.base
                && !self.blocks()[x].free && r2.raw <= self.blocks()[x].size;
        assert(r1.base != r2.base);
        assert(i1 != i2);
        self.lemma_blocks_separated(i1, i2);
    }

    /// Law: no block is ever smaller than the minimum block size, so a
    /// split never leaves a remainder too small to hold the free-list
    /// links.
    pub proof fn lemma_split_minimality(self, i: int)
        requires
            self.inv(),
            0 <= i < self.blocks().len(),
        ensures
            self.blocks()[i].size >= MIN_SIZE,
    {
        assert(self.blk_inv(i));
    }

    /// Law: allocating and then immediately freeing the same address
    /// returns the map of live allocations exactly to its earlier value.
    /// (`h0`, `h1` and `h2` are the states before the allocation, between
    /// the two calls, and after the free, related as the contracts of
    /// `allocate_first_fit` and `deallocate` state.)
    pub proof fn lemma_round_trip_live(h0: Heap, h1: Heap, h2: Heap, addr: int, size: int)
        requires
            !h0.live_allocs().dom().contains(addr),
            h1.live_allocs() == h0.live_allocs().insert(addr, size),
            h2.live_allocs() == h1.live_allocs().remove(addr),
        ensures
            h2.live_allocs() == h0.live_allocs(),
    {
        assert(h2.live_allocs() =~= h0.live_allocs());
    }

    /// Law: a splitting allocation followed immediately by freeing the
    /// returned address restores both the physical blocks and the free
    /// list exactly: the served block merges back with the split-off
    /// remainder, which held the block's old list slot.  `h0 -> h1` is
    /// the split, `h1 -> h2` the merge, exactly the steps the allocator
    /// takes.
    pub proof fn lemma_round_trip_split(
        h0: Heap,
        h1: Heap,
        h2: Heap,
        k: int,
        dest: int,
        size: int,
        raw: int,
        needed: int,
    )
        requires
            Self::alloc_pre(h0, k, dest, size, raw),
            raw <= needed,
            needed % 4 == 0,
            MIN_SIZE <= needed,
            needed + 2 * TAG_BYTES + MIN_SIZE <= h0.blocks()[h0.free_order()[k]].size,
            Self::split_shape(h0, h1, k, dest, size, raw, needed),
            Self::merge_next_shape(h1, h2, h0.free_order()[k], k, dest),
            !h0.live_allocs().dom().contains(dest),
        ensures
            h2.blocks() == h0.blocks(),
            h2.free_order() == h0.free_order(),
            h2.live_allocs() == h0.live_allocs(),
    {
        let j = h0.free_order()[k];
        let b = h0.blocks()[j];
        let n = h0.blocks().len() as int;
        let o0 = h0.free_order();
        assert(h0.order_ok_at(k));
        assert(h0.blk_inv(j));
        assert forall|m: int| 0 <= m < o0.len() && m != k implies #[trigger] o0[m] != j by {
            if m < k {
                assert(o0[m] != o0[k]);
            } else {
                assert(o0[k] != o0[m]);
            }
        }
        assert forall|x: int| 0 <= x < n implies #[trigger] h2.blocks()[x]
            == h0.blocks()[x] by {
            if x < j {
                assert(h1.blocks()[x] == h0.blocks()[x]);
            } else if x == j {
                assert(h2.blocks()[j] == (Block { base: b.base, size: b.size, free: true
                }));
            } else {
                assert(h1.blocks()[x + 1] == h0.blocks()[x]);
            }
        }
        assert(h2.blocks() =~= h0.blocks());
        assert forall|m: int| 0 <= m < o0.len() implies #[trigger] h2.free_order()[m]
            == o0[m] by {
            if m != k {
                assert(h1.free_order()[m] == (if o0[m] > j {
                    o0[m] + 1
                } else {
                    o0[m]
                }));
            }
        }
        assert(h2.free_order() =~= h0.free_order());
        assert(h2.live_allocs() =~= h0.live_allocs());
    }

    /// Law: a whole-block allocation followed immediately by freeing the
    /// returned address restores the physical blocks exactly, and the
    /// served block returns to the head of the free list (its old slot,
    /// when it was the head).  `h0 -> h1` is the allocation, `h1 -> h2`
    /// the reinsertion, exactly the steps the allocator takes.
    pub proof fn lemma_round_trip_whole(
        h0: Heap,
        h1: Heap,
        h2: Heap,
        k: int,
        dest: int,
        size: int,
        raw: int,
    )
        requires
            Self::alloc_pre(h0, k, dest, size, raw),
            raw <= h0.blocks()[h0.free_order()[k]].size,
            Self::whole_shape(h0, h1, k, dest, size, raw),
            Self::insertf_shape(h1, h2, h0.free_order()[k], dest),
            !h0.live_allocs().dom().contains(dest),
        ensures
            h2.blocks() == h0.blocks(),
            h2.live_allocs() == h0.live_allocs(),
            h2.free_order().len() == h0.free_order().len(),
            h2.free_order()[0] == h0.free_order()[k],
            forall|m: int|
                1 <= m < h0.free_order().len() ==> #[trigger] h2.free_order()[m]
                    == h0.free_order()[if m <= k {
                    m - 1
                } else {
                    m
                }],
            k == 0 ==> h2.free_order() == h0.free_order(),
    {
        let j = h0.free_order()[k];
        let b = h0.blocks()[j];
        let n = h0.blocks().len() as int;
        let o0 = h0.free_order();
        assert(h0.order_ok_at(k));
        assert(h0.blk_inv(j));
        assert forall|x: int| 0 <= x < n implies #[trigger] h2.blocks()[x]
            == h0.blocks()[x] by {
            if x == j {
                assert(h1.blocks()[j] == (Block { base: b.base, size: b.size, free: false
                }));
                assert(h2.blocks()[j] == (Block { base: b.base, size: b.size, free: true
                }));
            } else {
                assert(h1.blocks()[x] == h0.blocks()[x]);
            }
        }
        assert(h2.blocks() =~= h0.blocks());
        assert forall|m: int| 1 <= m < o0.len() implies #[trigger] h2.free_order()[m]
            == o0[if m <= k {
            m - 1
        } else {
            m
        }] by {
            assert(h2.free_order()[m] == h1.free_order()[m - 1]);
        }
        if k == 0 {
            assert(h2.free_order() =~= h0.free_order());
        }
        assert(h2.live_allocs() =~= h0.live_allocs());
    }

    /// Law: freeing two physically adjacent live allocations yields the
    /// same heap in either order — the same merged block, the same free
    /// list, the same live allocations.  The hypotheses are the two
    /// per-order step chains exactly as `deallocate` performs them when
    /// the pair's outer neighbors are occupied or absent: first-freed
    /// block inserted at the list head, second-freed block merged with
    /// it (by extending it forwards, or by splicing into its slot).
    pub proof fn lemma_coalesce_order_symmetric(
        h0: Heap,
        ha: Heap,
        ha2: Heap,
        hb: Heap,
        hb2: Heap,
        i: int,
        a1: int,
        a2: int,
    )
        requires
            h0.inv(),
            0 <= i,
            i + 1 < h0.blocks().len(),
            !h0.blocks()[i].free,
            !h0.blocks()[i + 1].free,
            a1 != a2,
            Self::insertf_shape(h0, ha, i, a1),
            Self::extend_shape(ha, ha2, i + 1, a2),
            Self::insertf_shape(h0, hb, i + 1, a2),
            Self::merge_next_shape(hb, hb2, i, 0, a1),
        ensures
            hb2.blocks() == ha2.blocks(),
            hb2.free_order() == ha2.free_order(),
            hb2.live_allocs() == ha2.live_allocs(),
    {
        let b1 = h0.blocks()[i];
        let b2 = h0.blocks()[i + 1];
        let n = h0.blocks().len() as int;
        let o0 = h0.free_order();
        assert forall|m: int| 0 <= m < o0.len() implies #[trigger] o0[m] != i && o0[m] != i
            + 1 by {
            assert(h0.order_ok_at(m));
        }
        assert(ha.blocks()[i] == (Block { base: b1.base, size: b1.size, free: true }));
        assert(ha.blocks()[i + 1] == b2);
        assert(hb.blocks()[i] == b1);
        assert(hb.blocks()[i + 1] == (Block { base: b2.base, size: b2.size, free: true
        }));
        assert forall|x: int| 0 <= x < n - 1 implies #[trigger] hb2.blocks()[x]
            == ha2.blocks()[x] by {
            if x < i {
                assert(ha.blocks()[x] == h0.blocks()[x]);
                assert(hb.blocks()[x] == h0.blocks()[x]);
                assert(ha2.blocks()[x] == ha.blocks()[x]);
                assert(hb2.blocks()[x] == hb.blocks()[x]);
            } else if x == i {
                assert(ha2.blocks()[i] == (Block {
                    base: b1.base,
                    size: b1.size + 2 * TAG_BYTES + b2.size,
                    free: true,
                }));
                assert(hb2.blocks()[i] == (Block {
                    base: b1.base,
                    size: b1.size + 2 * TAG_BYTES + b2.size,
                    free: true,
                }));
            } else {
                assert(ha.blocks()[x + 1] == h0.blocks()[x + 1]);
                assert(hb.blocks()[x + 1] == h0.blocks()[x + 1]);
                assert(ha2.blocks()[x] == ha.blocks()[x + 1]);
                assert(hb2.blocks()[x] == hb.blocks()[x + 1]);
            }
        }
        assert(hb2.blocks() =~= ha2.blocks());
        assert(ha2.free_order().len() == o0.len() + 1);
        assert(hb2.free_order().len() == o0.len() + 1);
        assert forall|m: int| 0 <= m < o0.len() + 1 implies #[trigger] hb2.free_order()[m]
            == ha2.free_order()[m] by {
            if m == 0 {
                assert(ha.free_order()[0] == i);
                assert(ha2.free_order()[0] == i);
                assert(hb2.free_order()[0] == i);
            } else {
                let x = o0[m - 1];
                assert(ha.free_order()[m] == x);
                assert(hb.free_order()[m] == x);
                assert(ha2.free_order()[m] == (if x > i + 1 {
                    x - 1
                } else {
                    x
                }));
                assert(hb2.free_order()[m] == (if x > i + 1 {
                    x - 1
                } else {
                    x
                }));
            }
        }
        assert(hb2.free_order() =~= ha2.free_order());
        assert(ha2.live_allocs() =~= h0.live_allocs().remove(a1).remove(a2));
        assert(hb2.live_allocs() =~= h0.live_allocs().remove(a2).remove(a1));
        assert(hb2.live_allocs() =~= ha2.live_allocs());
    }

    /// Whether the block at index `i` can serve a `size`/`align` request.
    pub open spec fn fits(self, i: int, size: int, align: int) -> bool {
        sufficient_spec(self.blocks()[i].base, self.blocks()[i].size, size, align)
    }

    /// Walks the free list from the head and serves the request from the
    /// first block that is large enough (first-fit, not best-fit).  On
    /// success the returned address is aligned, lies inside the extent,
    /// disjoint from every live allocation, and comes from the first
    /// sufficient block in list order.  When no free block suffices, the
    /// request fails with an exhaustion error and the heap is unchanged.
    pub fn allocate_first_fit(&mut self, size: usize, align: usize) -> (r: Result<
        usize,
        AllocErr,
    >)
        requires
            old(self).inv(),
            spec_is_pow2(align as int),
        ensures
            final(self).inv(),
            final(self).spec_size() == old(self).spec_size(),
            match r {
                Ok(addr) => {
                    &&& addr % align == 0
                    &&& addr + size <= final(self).spec_size()
                    &&& !old(self).live_allocs().dom().contains(addr as int)
                    &&& final(self).live_allocs() == old(self).live_allocs().insert(
                        addr as int,
                        size as int,
                    )
                    &&& exists|k: int|
                        {
                            &&& 0 <= k < old(self).free_order().len()
                            &&& old(self).fits(
                                #[trigger] old(self).free_order()[k],
                                size as int,
                                align as int,
                            )
                            &&& forall|m: int|
                                0 <= m < k ==> !old(self).fits(
                                    #[trigger] old(self).free_order()[m],
                                    size as int,
                                    align as int,
                                )
                            &&& addr as int == align_up_s(
                                old(self).blocks()[old(self).free_order()[k]].base
                                    + TAG_BYTES,
                                align as int,
                            )
                            &&& ({
                                let b = old(self).blocks()[old(self).free_order()[k]];
                                let raw = align_up_s(
                                    addr + size - b.base - TAG_BYTES,
                                    4,
                                );
                                let needed: int = if raw < MIN_SIZE {
                                    MIN_SIZE as int
                                } else {
                                    raw
                                };
                                if b.size - needed >= 2 * TAG_BYTES + MIN_SIZE {
                                    Self::split_shape(
                                        *old(self),
                                        *final(self),
                                        k,
                                        addr as int,
                                        size as int,
                                        raw,
                                        needed,
                                    )
                                } else {
                                    Self::whole_shape(
                                        *old(self),
                                        *final(self),
                                        k,
                                        addr as int,
                                        size as int,
                                        raw,
                                    )
                                }
                            })
                        }
                }
                Err(e) => {
                    &&& e == (AllocErr::Exhausted { size, align })
                    &&& *final(self) == *old(self)
                    &&& forall|i: int|
                        0 <= i < old(self).blocks().len() && (#[trigger] old(
                            self,
                        ).blocks()[i]).free ==> !old(self).fits(i, size as int, align as int)
                }
            },
    {
        let ghost o0 = old(self).free_order();
        let mut cur: Option<usize> = self.first.next();
        let ghost mut kk: int = 0;
        loop
            invariant
                self.inv(),
                *self == *old(self),
                spec_is_pow2(align as int),
                0 <= kk <= o0.len(),
                o0 == self.free_order(),
                cur == (if kk < o0.len() {
                    Some(self.blocks()[o0[kk]].base as usize)
                } else {
                    Option::<usize>::None
                }),
                forall|m: int|
                    0 <= m < kk ==> !old(self).fits(
                        #[trigger] o0[m],
                        size as int,
                        align as int,
                    ),
            decreases o0.len() - kk,
        {
            match cur {
                None => {
                    proof {
                        assert forall|i: int|
                            0 <= i < self.blocks().len()
                                && (#[trigger] self.blocks()[i]).free implies !old(self).fits(
                            i,
                            size as int,
                            align as int,
                        ) by {
                            assert(self.free_order().contains(i));
                            let m = choose|m: int| 0 <= m < o0.len() && o0[m] == i;
                            assert(!old(self).fits(o0[m], size as int, align as int));
                        }
                    }
                    return Err(AllocErr::Exhausted { size, align });
                }
                Some(base) => {
                    proof {
                        assert(self.order_ok_at(kk));
                        assert(self.blk_inv(o0[kk]));
                    }
                    let reg = load_region(&self.words, base);
                    if reg.is_sufficient(size, align) {
                        let addr = self.allocate_block(base, size, align, Ghost(kk));
                        proof {
                            assert(0 <= kk < old(self).free_order().len() && old(self).fits(
                                old(self).free_order()[kk],
                                size as int,
                                align as int,
                            ) && addr as int == align_up_s(
                                old(self).blocks()[old(self).free_order()[kk]].base
                                    + TAG_BYTES,
                                align as int,
                            ));
                        }
                        return Ok(addr);
                    } else {
                        cur = reg.next();
                        proof {
                            kk = kk + 1;
                        }
                    }
                }
            }
        }
    }
}

} // verus!
