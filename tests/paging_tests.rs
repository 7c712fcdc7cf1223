use rust_os::allocator::bump::BumpAllocator;
use rust_os::allocator::{init_heap, map_heap, HEAP_SIZE, HEAP_START};
use rust_os::memory::{BootInfoFrameAllocator, MemoryRegion, PhysFrame};
use rust_os::paging::{MapToError, PageMapper};

fn frames(start: u64, count: u64) -> BootInfoFrameAllocator {
    BootInfoFrameAllocator::init(vec![MemoryRegion {
        start_addr: start,
        end_addr: start + count * 4096,
        usable: true,
    }])
}

#[test]
fn nothing_is_mapped_at_first() {
    let m = PageMapper::new(PhysFrame::containing_address(0x1000));
    assert_eq!(m.translate_addr(0), None);
    assert_eq!(m.translate_addr(0xdead_b000), None);
}

#[test]
fn translate_after_map_gives_frame_plus_offset() {
    let mut m = PageMapper::new(PhysFrame::containing_address(0x1000));
    let mut fa = frames(0x10_0000, 8);
    let page = 0x4444_4444_0000u64;
    let frame = PhysFrame::containing_address(0x80_0000);
    assert_eq!(m.map_to(page, frame, true, &mut fa), Ok(()));
    assert_eq!(m.translate_addr(page), Some(0x80_0000));
    assert_eq!(m.translate_addr(page + 0x123), Some(0x80_0123));
    assert_eq!(m.translate_addr(page + 0xfff), Some(0x80_0fff));
    assert_eq!(m.translate_addr(page + 0x1000), None);
}

#[test]
fn second_page_reuses_intermediate_tables() {
    let mut m = PageMapper::new(PhysFrame::containing_address(0x1000));
    let mut fa = frames(0x10_0000, 3);
    let a = PhysFrame::containing_address(0x80_0000);
    let b = PhysFrame::containing_address(0x90_0000);
    assert_eq!(m.map_to(0x20_0000, a, true, &mut fa), Ok(()));
    assert_eq!(m.map_to(0x20_1000, b, false, &mut fa), Ok(()));
    assert_eq!(m.translate_addr(0x20_0010), Some(0x80_0010));
    assert_eq!(m.translate_addr(0x20_1010), Some(0x90_0010));
    assert_eq!(fa.allocate_frame(), None);
}

#[test]
fn mapping_a_mapped_page_is_refused() {
    let mut m = PageMapper::new(PhysFrame::containing_address(0x1000));
    let mut fa = frames(0x10_0000, 8);
    let a = PhysFrame::containing_address(0x80_0000);
    let b = PhysFrame::containing_address(0x90_0000);
    assert_eq!(m.map_to(0x5000, a, true, &mut fa), Ok(()));
    assert_eq!(m.map_to(0x5800, b, true, &mut fa), Err(MapToError::PageAlreadyMapped(b)));
    assert_eq!(m.translate_addr(0x5800), Some(0x80_0800));
}

#[test]
fn running_out_of_frames_for_tables_fails() {
    let mut m = PageMapper::new(PhysFrame::containing_address(0x1000));
    let mut fa = frames(0x10_0000, 2);
    let a = PhysFrame::containing_address(0x80_0000);
    assert_eq!(m.map_to(0x5000, a, true, &mut fa), Err(MapToError::FrameAllocationFailed));
    assert_eq!(m.translate_addr(0x5000), None);
}

#[test]
fn frame_holding_a_table_is_refused() {
    let mut m = PageMapper::new(PhysFrame::containing_address(0x10_0000));
    let mut fa = frames(0x10_0000, 8);
    let a = PhysFrame::containing_address(0x80_0000);
    assert_eq!(m.map_to(0x5000, a, true, &mut fa), Err(MapToError::FrameInUse));
}

#[test]
fn init_heap_maps_whole_heap() {
    let mut m = PageMapper::new(PhysFrame::containing_address(0x1000));
    let mut fa = frames(0x10_0000, 64);
    let mut heap = BumpAllocator::new();
    assert_eq!(init_heap(&mut m, &mut fa, &mut heap), Ok(()));
    for off in (0..HEAP_SIZE).step_by(4096) {
        assert!(m.translate_addr(HEAP_START + off).is_some());
    }
    assert!(m.translate_addr(HEAP_START + HEAP_SIZE - 1).is_some());
    assert_eq!(m.translate_addr(HEAP_START + HEAP_SIZE), None);
    assert_eq!(heap.allocate(8, 8), Some(HEAP_START));
}

#[test]
fn init_heap_without_enough_frames_fails() {
    let mut m = PageMapper::new(PhysFrame::containing_address(0x1000));
    let mut fa = frames(0x10_0000, 10);
    let mut heap = BumpAllocator::new();
    assert_eq!(init_heap(&mut m, &mut fa, &mut heap), Err(MapToError::FrameAllocationFailed));
    assert_eq!(heap.allocate(1, 1), None);
}

#[test]
fn map_heap_covers_unaligned_range() {
    let mut m = PageMapper::new(PhysFrame::containing_address(0x1000));
    let mut fa = frames(0x10_0000, 16);
    let mut heap = BumpAllocator::new();
    assert_eq!(map_heap(&mut m, &mut fa, &mut heap, 0x7_0800, 0x1000), Ok(()));
    assert!(m.translate_addr(0x7_0000).is_some());
    assert!(m.translate_addr(0x7_17ff).is_some());
    assert_eq!(m.translate_addr(0x7_2000), None);
    assert_eq!(heap.allocate(16, 16), Some(0x7_0800));
}

#[test]
fn map_heap_two_pages_in_one_region_succeeds() {
    let mut m = PageMapper::new(PhysFrame::containing_address(0x1000));
    let mut fa = frames(0x10_0000, 8);
    let mut heap = BumpAllocator::new();
    assert_eq!(map_heap(&mut m, &mut fa, &mut heap, 0x40_0000, 0x2000), Ok(()));
    assert_eq!(m.translate_addr(0x40_0000), Some(0x10_0000));
    assert_eq!(m.translate_addr(0x40_1008), Some(0x10_4008));
    assert_eq!(m.translate_addr(0x40_2000), None);
    assert_eq!(m.translate_addr(0x3f_f000), None);
}
