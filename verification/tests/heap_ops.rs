use boundary_tag_heap::adapter::BoundaryTagAllocator;
use boundary_tag_heap::heap::{AllocErr, Heap};

/// A 4096-byte extent offers 4088 usable bytes between its two guard tags.
const EXTENT: usize = 4096;
const USABLE: usize = 4088;

fn fresh() -> BoundaryTagAllocator {
    let mut a = BoundaryTagAllocator::empty();
    a.init(EXTENT);
    a
}

#[test]
fn init_yields_one_spanning_free_block() {
    let a = fresh();
    assert_eq!(a.debug_list(), vec![(0, USABLE)]);
}

#[test]
fn empty_heap_has_no_free_blocks() {
    let h = Heap::empty();
    assert_eq!(h.debug_list(), vec![]);
}

#[test]
fn round_trip_restores_free_list() {
    // Allocating and immediately freeing returns the free list to its
    // exact earlier shape: one merged block of the original size.
    let mut a = fresh();
    let before = a.debug_list();
    let addr = a.allocate(64, 4).unwrap();
    a.dealloc(addr, 64, 4);
    let after = a.debug_list();
    assert_eq!(before, after);
    assert_eq!(after, vec![(0, USABLE)]);
}

#[test]
fn round_trip_after_several_allocations() {
    let mut a = fresh();
    let x = a.allocate(40, 4).unwrap();
    let before = a.debug_list();
    let y = a.allocate(100, 4).unwrap();
    a.dealloc(y, 100, 4);
    assert_eq!(a.debug_list(), before);
    a.dealloc(x, 40, 4);
    assert_eq!(a.debug_list(), vec![(0, USABLE)]);
}

#[test]
fn returned_addresses_are_aligned_and_inside_the_extent() {
    let mut a = fresh();
    let p1 = a.allocate(30, 8).unwrap();
    assert_eq!(p1 % 8, 0);
    assert!(p1 + 30 <= EXTENT);
    let p2 = a.allocate(17, 64).unwrap();
    assert_eq!(p2 % 64, 0);
    assert!(p2 + 17 <= EXTENT);
    let p3 = a.allocate(1, 1).unwrap();
    assert!(p3 + 1 <= EXTENT);
}

#[test]
fn live_allocations_do_not_overlap() {
    let mut a = fresh();
    let mut live: Vec<(usize, usize)> = Vec::new();
    for &(size, align) in &[(64usize, 4usize), (128, 8), (16, 16), (200, 4), (8, 32)] {
        let p = a.allocate(size, align).unwrap();
        for &(q, qs) in &live {
            assert!(p + size <= q || q + qs <= p);
        }
        live.push((p, size));
    }
}

#[test]
fn first_fit_prefers_the_earlier_sufficient_block() {
    // Build free blocks of sizes [64, 16, 128] in list order (plus the
    // remaining tail), then ask for 10 bytes: the 64-byte block serves it,
    // not the 128-byte block, although both would fit.
    let mut a = fresh();
    let x = a.allocate(64, 4).unwrap();
    let _s1 = a.allocate(8, 4).unwrap();
    let y = a.allocate(16, 4).unwrap();
    let _s2 = a.allocate(8, 4).unwrap();
    let z = a.allocate(128, 4).unwrap();
    let _s3 = a.allocate(8, 4).unwrap();
    a.dealloc(z, 128, 4);
    a.dealloc(y, 16, 4);
    a.dealloc(x, 64, 4);
    let list = a.debug_list();
    assert_eq!(list.len(), 4);
    assert_eq!(list[0].1, 64);
    assert_eq!(list[1].1, 16);
    assert_eq!(list[2].1, 128);
    let p = a.allocate(10, 4).unwrap();
    assert_eq!(p, x);
}

#[test]
fn freeing_merges_with_previous_neighbor() {
    let mut a = fresh();
    let x = a.allocate(64, 4).unwrap();
    let y = a.allocate(64, 4).unwrap();
    let _sep = a.allocate(8, 4).unwrap();
    a.dealloc(x, 64, 4);
    a.dealloc(y, 64, 4);
    // one block spanning both extents plus the tag pair between them
    assert!(a.debug_list().contains(&(0, 64 + 8 + 64)));
}

#[test]
fn freeing_merges_with_next_neighbor() {
    let mut a = fresh();
    let x = a.allocate(64, 4).unwrap();
    let y = a.allocate(64, 4).unwrap();
    let _sep = a.allocate(8, 4).unwrap();
    a.dealloc(y, 64, 4);
    a.dealloc(x, 64, 4);
    assert!(a.debug_list().contains(&(0, 64 + 8 + 64)));
}

#[test]
fn merge_result_is_order_independent() {
    // freeing two adjacent blocks in either order yields the same heap
    let mut a = fresh();
    let xa = a.allocate(64, 4).unwrap();
    let ya = a.allocate(64, 4).unwrap();
    let _sa = a.allocate(8, 4).unwrap();
    a.dealloc(xa, 64, 4);
    a.dealloc(ya, 64, 4);
    let mut b = fresh();
    let xb = b.allocate(64, 4).unwrap();
    let yb = b.allocate(64, 4).unwrap();
    let _sb = b.allocate(8, 4).unwrap();
    b.dealloc(yb, 64, 4);
    b.dealloc(xb, 64, 4);
    assert_eq!(a.debug_list(), b.debug_list());
}

#[test]
fn freeing_between_two_free_neighbors_merges_all_three() {
    let mut a = fresh();
    let x = a.allocate(64, 4).unwrap();
    let y = a.allocate(64, 4).unwrap();
    let z = a.allocate(64, 4).unwrap();
    let _sep = a.allocate(8, 4).unwrap();
    a.dealloc(x, 64, 4);
    a.dealloc(z, 64, 4);
    a.dealloc(y, 64, 4);
    assert!(a.debug_list().contains(&(0, 3 * 64 + 2 * 8)));
}

#[test]
fn exhaustion_is_reported_and_leaves_the_heap_usable() {
    let mut a = fresh();
    let before = a.debug_list();
    let r = a.allocate(USABLE + 1, 4);
    assert_eq!(r, Err(AllocErr::Exhausted { size: USABLE + 1, align: 4 }));
    assert_eq!(a.debug_list(), before);
    // a smaller request still succeeds, and the whole extent is takeable
    let p = a.allocate(USABLE, 4).unwrap();
    assert_eq!(p, 4);
    assert_eq!(a.debug_list(), vec![]);
}

#[test]
fn alignment_padding_counts_against_a_block() {
    // A block large enough for the bytes alone is still exhausted when
    // front padding pushes the request past its end.
    let mut a = BoundaryTagAllocator::empty();
    a.init(72);  // one free block of 64 usable bytes at offset 0
    assert_eq!(a.debug_list(), vec![(0, 64)]);
    let r = a.allocate(60, 64);
    assert_eq!(r, Err(AllocErr::Exhausted { size: 60, align: 64 }));
    let p = a.allocate(60, 4).unwrap();
    assert_eq!(p, 4);
}

#[test]
fn split_remainder_never_smaller_than_min_size() {
    let mut a = fresh();
    let x = a.allocate(64, 4).unwrap();
    let _sep = a.allocate(8, 4).unwrap();
    a.dealloc(x, 64, 4);
    assert!(a.debug_list().contains(&(0, 64)));
    // 64 - 52 = 12 < 16: splitting would leave less than one minimum
    // block with its tags, so the whole 64-byte block is consumed
    let p = a.allocate(52, 4).unwrap();
    assert_eq!(p, x);
    assert!(!a.debug_list().iter().any(|e| e.0 < 72));
    a.dealloc(p, 52, 4);
    // 64 - 48 = 16: the remainder is exactly one minimum block
    let q = a.allocate(48, 4).unwrap();
    assert_eq!(q, x);
    assert!(a.debug_list().contains(&(56, 8)));
}

#[test]
fn boot_scenario() {
    // init(4096) -> allocate(64, 4) -> allocate(128, 8) -> free both ->
    // one free block of the original usable size remains.
    let mut a = BoundaryTagAllocator::empty();
    a.init(4096);
    let p1 = a.allocate(64, 4).unwrap();
    assert!(p1 + 64 <= 4096);
    assert_eq!(p1 % 4, 0);
    let p2 = a.allocate(128, 8).unwrap();
    assert_eq!(p2 % 8, 0);
    assert!(p2 + 128 <= 4096);
    assert!(p1 + 64 <= p2 || p2 + 128 <= p1);
    a.dealloc(p1, 64, 4);
    a.dealloc(p2, 128, 8);
    assert_eq!(a.debug_list(), vec![(0, 4088)]);
}

#[test]
fn round_trip_from_middle_of_list_restores_order() {
    // Free blocks [64, 16, 128, tail] in list order; a 100-byte request is
    // served by splitting the 128-byte block (third in the list), and the
    // remainder takes that block's list slot.  Freeing the allocation
    // merges the two pieces back in place, so the whole free list — same
    // blocks, same sizes, same order — is restored exactly.
    let mut a = fresh();
    let x = a.allocate(64, 4).unwrap();
    let _s1 = a.allocate(8, 4).unwrap();
    let y = a.allocate(16, 4).unwrap();
    let _s2 = a.allocate(8, 4).unwrap();
    let z = a.allocate(128, 4).unwrap();
    let _s3 = a.allocate(8, 4).unwrap();
    a.dealloc(z, 128, 4);
    a.dealloc(y, 16, 4);
    a.dealloc(x, 64, 4);
    let before = a.debug_list();
    assert_eq!(before.iter().map(|e| e.1).collect::<Vec<_>>()[..3], [64, 16, 128]);
    let p = a.allocate(100, 4).unwrap();
    assert_eq!(p, z);
    a.dealloc(p, 100, 4);
    assert_eq!(a.debug_list(), before);
}

#[test]
fn reuse_after_free_fills_the_hole() {
    let mut a = fresh();
    let x = a.allocate(64, 4).unwrap();
    let _keep = a.allocate(32, 4).unwrap();
    a.dealloc(x, 64, 4);
    // the freed hole is first in the list and serves the next request
    let y = a.allocate(20, 4).unwrap();
    assert_eq!(y, x);
}
