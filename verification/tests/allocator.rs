use kernel::allocator::dlmalloc::{Chunk, System};
use kernel::allocator::init_allocator;
use kernel::allocator::watermark::WaterMarkAllocator;

#[test]
fn bump_aligns_then_advances() {
    let mut a = WaterMarkAllocator::new(0x1001, 0x10000);
    assert_eq!(a.allocate(0x20, 0x100), Some(0x1100));
    assert_eq!(a.current_position(), 0x1120);
    assert_eq!(a.allocate(0x10, 0x10), Some(0x1120));
    assert_eq!(a.current_position(), 0x1130);
    assert_eq!(a.heap_end(), 0x10000);
}

#[test]
fn bump_keeps_an_aligned_cursor() {
    let mut a = WaterMarkAllocator::new(0x2000, 0x10000);
    assert_eq!(a.allocate(0x1000, 0x1000), Some(0x2000));
    assert_eq!(a.allocate(0x1000, 0x1000), Some(0x3000));
}

#[test]
fn bump_fails_when_the_cursor_would_reach_the_end() {
    let mut a = WaterMarkAllocator::new(0x1000, 0x2000);
    assert!(!a.can_alloc(0x1000, 0x1000));
    assert_eq!(a.allocate(0x1000, 0x1000), None);
    assert_eq!(a.current_position(), 0x1000);
    assert!(a.can_alloc(0xfff, 0x1000));
    assert_eq!(a.allocate(0xfff, 0x1000), Some(0x1000));
    assert_eq!(a.current_position(), 0x1fff);
}

#[test]
fn bump_survives_sizes_that_overflow() {
    let mut a = WaterMarkAllocator::new(0x1000, 0x2000);
    assert_eq!(a.allocate(u64::MAX, 0x1000), None);
    assert_eq!(a.current_position(), 0x1000);
}

#[test]
fn empty_allocator_never_allocates() {
    let mut a = WaterMarkAllocator::empty();
    assert_eq!(a.allocate(1, 1), None);
    assert_eq!(a.allocate(0, 1), None);
}

#[test]
fn dealloc_is_a_no_op() {
    let mut a = init_allocator(0x1000, 0x9000);
    let p = a.allocate(0x100, 0x10).unwrap();
    let cursor = a.current_position();
    a.deallocate(p, 0x100, 0x10);
    assert_eq!(a.current_position(), cursor);
    assert_eq!(a.allocate(0x100, 0x10), Some(0x1100));
}

#[test]
fn system_hands_out_the_heap_from_its_start() {
    let mut s = System::new();
    assert!(s.allocate(0x10000, 0x8400_0000) == Chunk { addr: 0x8400_0000, size: 0x10000, flags: 0 });
    assert!(s.allocate(0x20000, 0x8400_0000) == Chunk { addr: 0x8401_0000, size: 0x20000, flags: 0 });
    assert!(s.allocate(u64::MAX, 0x8400_0000) == Chunk { addr: 0, size: 0, flags: 0 });
    assert!(s.allocate(0x10, 0) == Chunk { addr: 0x8403_0000, size: 0x10, flags: 0 });
    assert!(!s.free(0x8400_0000, 0x10000));
    assert!(!s.free_part(0x8400_0000, 0x10000, 0x100));
    assert!(!s.can_release_part(0));
    assert!(s.allocates_zeros());
    assert_eq!(s.remap(0x8400_0000, 0x10000, 0x20000, true), 0);
    assert_eq!(s.page_size(), 65536);
}
