use rust_os::allocator::bump::BumpAllocator;
use rust_os::allocator::{HEAP_SIZE, HEAP_START};

#[test]
fn heap_constants() {
    assert_eq!(HEAP_START, 0x4444_4444_0000);
    assert_eq!(HEAP_SIZE, 100 * 1024);
}

#[test]
fn uninitialized_allocator_has_no_room() {
    let mut a = BumpAllocator::new();
    assert_eq!(a.allocate(1, 1), None);
    assert_eq!(a.allocate(0, 1), Some(0));
}

#[test]
fn allocations_are_aligned_and_consecutive() {
    let mut a = BumpAllocator::new();
    a.init(0x1000, 0x1000);
    assert_eq!(a.allocate(3, 1), Some(0x1000));
    assert_eq!(a.allocate(8, 8), Some(0x1008));
    assert_eq!(a.allocate(1, 16), Some(0x1010));
    assert_eq!(a.allocate(4, 4), Some(0x1014));
}

#[test]
fn allocations_never_overlap() {
    let mut a = BumpAllocator::new();
    a.init(0x2000, 0x400);
    let mut blocks: Vec<(u64, u64)> = Vec::new();
    for (size, align) in [(10u64, 4u64), (7, 1), (32, 32), (1, 8), (100, 2)] {
        let start = a.allocate(size, align).unwrap();
        assert_eq!(start % align, 0);
        assert!(start >= 0x2000 && start + size <= 0x2400);
        for &(s, z) in &blocks {
            assert!(start >= s + z || start + size <= s);
        }
        blocks.push((start, size));
    }
}

#[test]
fn last_release_reclaims_the_heap() {
    let mut a = BumpAllocator::new();
    a.init(0x3000, 0x100);
    let x = a.allocate(16, 8).unwrap();
    let y = a.allocate(32, 8).unwrap();
    assert_eq!(x, 0x3000);
    assert_eq!(y, 0x3010);
    a.deallocate(x, 16, 8);
    assert_eq!(a.allocate(8, 8), Some(0x3030));
    a.deallocate(y, 32, 8);
    a.deallocate(0x3030, 8, 8);
    assert_eq!(a.allocate(8, 8), Some(0x3000));
}

#[test]
fn request_beyond_remaining_space_fails_without_advancing() {
    let mut a = BumpAllocator::new();
    a.init(0x4000, 0x100);
    assert_eq!(a.allocate(0xf0, 1), Some(0x4000));
    assert_eq!(a.allocate(0x20, 1), None);
    assert_eq!(a.allocate(0x10, 1), Some(0x40f0));
    assert_eq!(a.allocate(1, 1), None);
}

#[test]
fn request_that_overflows_the_address_space_fails() {
    let mut a = BumpAllocator::new();
    a.init(0x5000, 0x100);
    assert_eq!(a.allocate(u64::MAX, 1), None);
    assert_eq!(a.allocate(8, 1u64 << 63), None);
    assert_eq!(a.allocate(0x100, 1), Some(0x5000));
}
