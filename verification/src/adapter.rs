//! The allocator adapter: exposes the heap as the system's allocation
//! provider, mapping the generic "allocate/deallocate bytes with size and
//! alignment" contract onto the heap's operations.  No logic of its own
//! beyond argument forwarding.

use vstd::prelude::*;
use crate::heap::{AllocErr, Heap};
use crate::align::{align_up_s, spec_is_pow2};
use crate::{MAX_EXTENT, MIN_SIZE, TAG_BYTES};

verus! {

/// A boundary-tag allocator: a thin shell around one [`Heap`].
pub struct BoundaryTagAllocator {
    heap: Heap,
}

impl BoundaryTagAllocator {
    /// The underlying heap.
    pub closed spec fn heap(self) -> Heap {
        self.heap
    }

    /// An empty, uninitialized allocator.
    pub fn empty() -> (r: BoundaryTagAllocator)
        ensures
            r.heap().inv(),
            r.heap().spec_size() == 0,
            r.heap().live_allocs() =~= Map::<int, int>::empty(),
    {
        BoundaryTagAllocator { heap: Heap::empty() }
    }

    /// Initializes the managed extent; to be called once, before any
    /// allocation.
    pub fn init(&mut self, size: usize)
        requires
            2 * TAG_BYTES + MIN_SIZE <= size,
            size % 4 == 0,
            size <= MAX_EXTENT,
        ensures
            final(self).heap().inv(),
            final(self).heap().spec_size() == size,
            final(self).heap().blocks() =~= seq![
                crate::heap::Block { base: 0, size: size - 2 * TAG_BYTES, free: true },
            ],
            final(self).heap().live_allocs() =~= Map::<int, int>::empty(),
    {
        self.heap.init(size);
    }

    /// Allocates `size` bytes aligned to `align`, or reports exhaustion.
    pub fn allocate(&mut self, size: usize, align: usize) -> (r: Result<usize, AllocErr>)
        requires
            old(self).heap().inv(),
            spec_is_pow2(align as int),
        ensures
            final(self).heap().inv(),
            final(self).heap().spec_size() == old(self).heap().spec_size(),
            match r {
                Ok(addr) => {
                    &&& addr % align == 0
                    &&& addr + size <= final(self).heap().spec_size()
                    &&& !old(self).heap().live_allocs().dom().contains(addr as int)
                    &&& final(self).heap().live_allocs() == old(
                        self,
                    ).heap().live_allocs().insert(addr as int, size as int)
                    &&& exists|k: int|
                        {
                            &&& 0 <= k < old(self).heap().free_order().len()
                            &&& old(self).heap().fits(
                                #[trigger] old(self).heap().free_order()[k],
                                size as int,
                                align as int,
                            )
                            &&& forall|m: int|
                                0 <= m < k ==> !old(self).heap().fits(
                                    #[trigger] old(self).heap().free_order()[m],
                                    size as int,
                                    align as int,
                                )
                            &&& addr as int == align_up_s(
                                old(self).heap().blocks()[old(
                                    self,
                                ).heap().free_order()[k]].base + TAG_BYTES,
                                align as int,
                            )
                            &&& ({
                                let b = old(self).heap().blocks()[old(
                                    self,
                                ).heap().free_order()[k]];
                                let raw = align_up_s(
                                    addr + size - b.base - TAG_BYTES,
                                    4,
                                );
                                let needed: int = if raw < MIN_SIZE {
                                    MIN_SIZE as int
                                } else {
                                    raw
                                };
                                if b.size - needed >= 2 * TAG_BYTES + MIN_SIZE {
                                    Heap::split_shape(
                                        old(self).heap(),
                                        final(self).heap(),
                                        k,
                                        addr as int,
                                        size as int,
                                        raw,
                                        needed,
                                    )
                                } else {
                                    Heap::whole_shape(
                                        old(self).heap(),
                                        final(self).heap(),
                                        k,
                                        addr as int,
                                        size as int,
                                        raw,
                                    )
                                }
                            })
                        }
                }
                Err(e) => {
                    &&& e == (AllocErr::Exhausted { size, align })
                    &&& final(self).heap() == old(self).heap()
                    &&& forall|i: int|
                        0 <= i < old(self).heap().blocks().len() && (#[trigger] old(
                            self,
                        ).heap().blocks()[i]).free ==> !old(self).heap().fits(
                            i,
                            size as int,
                            align as int,
                        )
                }
            },
    {
        self.heap.allocate_first_fit(size, align)
    }

    /// Frees the allocation previously returned at `ptr` with the same
    /// `size`; the alignment is carried for interface symmetry only.
    pub fn dealloc(&mut self, ptr: usize, size: usize, _align: usize)
        requires
            old(self).heap().inv(),
            old(self).heap().live_allocs().dom().contains(ptr as int),
            old(self).heap().live_allocs()[ptr as int] == size,
        ensures
            final(self).heap().inv(),
            final(self).heap().spec_size() == old(self).heap().spec_size(),
            final(self).heap().live_allocs() == old(self).heap().live_allocs().remove(
                ptr as int,
            ),
    {
        self.heap.deallocate(ptr, size);
    }

    /// Lists the free blocks in list order, as (offset, size) pairs.
    pub fn debug_list(&self) -> (r: Vec<(usize, usize)>)
        requires
            self.heap().inv(),
        ensures
            r@.len() == self.heap().free_order().len(),
            forall|k: int| 0 <= k < r@.len() ==> #[trigger] r@[k] == (
                self.heap().blocks()[self.heap().free_order()[k]].base as usize,
                self.heap().blocks()[self.heap().free_order()[k]].size as usize,
            ),
    {
        self.heap.debug_list()
    }
}

} // verus!
