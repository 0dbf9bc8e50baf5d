use boundary_tag_heap::align::{align_down, align_up, is_power_of_two};
use boundary_tag_heap::tag::BoundaryTag;
use boundary_tag_heap::region::MemoryRegion;

#[test]
fn tag_new_is_empty_free() {
    let t = BoundaryTag::new();
    assert_eq!(t.size(), 0);
    assert!(t.is_free());
    assert!(!t.is_guard());
}

#[test]
fn tag_init_sets_all_fields() {
    let mut t = BoundaryTag::new();
    t.init(4088, true, true);
    assert_eq!(t.size(), 4088);
    assert!(t.is_free());
    assert!(t.is_guard());
    t.init(64, false, false);
    assert_eq!(t.size(), 64);
    assert!(!t.is_free());
    assert!(!t.is_guard());
}

#[test]
fn tag_flags_do_not_disturb_size() {
    let mut t = BoundaryTag::new();
    t.set_size(256);
    t.set_free(false);
    t.set_guard(true);
    assert_eq!(t.size(), 256);
    assert!(!t.is_free());
    assert!(t.is_guard());
    t.set_free(true);
    assert_eq!(t.size(), 256);
    assert!(t.is_guard());
    t.set_guard(false);
    assert_eq!(t.size(), 256);
    assert!(t.is_free());
}

#[test]
fn tag_word_encoding_is_bit_exact() {
    // bit 0 = free, bit 1 = guard, upper bits hold size >> 2
    let mut t = BoundaryTag::new();
    t.init(100, true, false);
    assert_eq!(t.to_word(), 100 | 0b01);
    t.init(100, false, true);
    assert_eq!(t.to_word(), 100 | 0b10);
    t.init(0, true, true);
    assert_eq!(t.to_word(), 0b11);
    let r = BoundaryTag::from_word(0x68);
    assert_eq!(r.size(), 0x68);
    assert!(!r.is_free());
    assert!(!r.is_guard());
}

#[test]
fn align_helpers_exact_values() {
    assert_eq!(align_down(11, 4), 8);
    assert_eq!(align_down(12, 4), 12);
    assert_eq!(align_up(11, 4), 12);
    assert_eq!(align_up(12, 4), 12);
    assert_eq!(align_up(1, 8), 8);
    assert_eq!(align_up(0, 16), 0);
}

#[test]
fn power_of_two_detection() {
    assert!(is_power_of_two(1));
    assert!(is_power_of_two(2));
    assert!(is_power_of_two(4096));
    assert!(!is_power_of_two(0));
    assert!(!is_power_of_two(3));
    assert!(!is_power_of_two(12));
}

#[test]
fn region_header_fields() {
    let mut r = MemoryRegion::new();
    assert_eq!(r.size(), 0);
    assert!(r.is_free());
    assert_eq!(r.next(), None);
    assert_eq!(r.prev(), None);
    r.init(64, Some(128), Some(12));
    assert_eq!(r.size(), 64);
    assert!(r.is_free());
    assert!(!r.tag().is_guard());
    assert_eq!(r.next(), Some(128));
    assert_eq!(r.prev(), Some(12));
    r.set_next(None);
    r.set_prev(Some(4));
    assert_eq!(r.next(), None);
    assert_eq!(r.prev(), Some(4));
    r.set_free(false);
    assert!(!r.is_free());
    assert_eq!(r.size(), 64);
}

#[test]
fn region_sizes_and_addresses() {
    assert_eq!(MemoryRegion::outer_size(64), 72);
    assert_eq!(MemoryRegion::min_size(), 8);
    let mut r = MemoryRegion::new();
    r.base = 72;
    r.init(64, None, None);
    assert_eq!(r.addr(), 76);
    assert_eq!(r.end_tag(), 140);
    assert_eq!(r.prev_neighbor_memory_region(), Some(68));
    r.mut_tag().set_guard(true);
    assert_eq!(r.prev_neighbor_memory_region(), None);
}

#[test]
fn region_sufficiency_accounts_for_padding() {
    let mut r = MemoryRegion::new();
    r.base = 4;
    r.init(64, None, None);
    // data starts at offset 8; aligning to 16 wastes 8 bytes of padding
    assert!(r.is_sufficient(56, 16));
    assert!(!r.is_sufficient(57, 16));
    assert!(r.is_sufficient(64, 4));
    assert!(!r.is_sufficient(65, 4));
    assert!(r.is_sufficient(0, 4));
}
