use rust_os::memory::{BootInfoFrameAllocator, MemoryRegion, PhysFrame};

fn region(start: u64, end: u64, usable: bool) -> MemoryRegion {
    MemoryRegion { start_addr: start, end_addr: end, usable }
}

#[test]
fn frames_come_from_usable_regions_in_order() {
    let map = vec![
        region(0x0000, 0x2000, true),
        region(0x2000, 0x5000, false),
        region(0x5000, 0x7000, true),
    ];
    let mut a = BootInfoFrameAllocator::init(map);
    let got: Vec<u64> = (0..4).map(|_| a.allocate_frame().unwrap().start_address()).collect();
    assert_eq!(got, vec![0x0000, 0x1000, 0x5000, 0x6000]);
    assert_eq!(a.allocate_frame(), None);
}

#[test]
fn no_frame_is_handed_out_twice_and_exhaustion_sticks() {
    let map = vec![region(0x10000, 0x18000, true), region(0x20000, 0x23000, true)];
    let mut a = BootInfoFrameAllocator::init(map);
    let mut seen: Vec<u64> = Vec::new();
    while let Some(f) = a.allocate_frame() {
        assert!(!seen.contains(&f.start_address()));
        seen.push(f.start_address());
    }
    assert_eq!(seen.len(), 11);
    for _ in 0..5 {
        assert_eq!(a.allocate_frame(), None);
    }
}

#[test]
fn partial_frame_at_region_end_counts() {
    let map = vec![region(0x1000, 0x2800, true)];
    let a = BootInfoFrameAllocator::init(map);
    let frames: Vec<u64> = a.usable_frames().iter().map(|f| f.start_address()).collect();
    assert_eq!(frames, vec![0x1000, 0x2000]);
}

#[test]
fn unaligned_region_start_rounds_down() {
    let map = vec![region(0x1800, 0x3000, true)];
    let mut a = BootInfoFrameAllocator::init(map);
    assert_eq!(a.allocate_frame().unwrap().start_address(), 0x1000);
    assert_eq!(a.allocate_frame().unwrap().start_address(), 0x2000);
    assert_eq!(a.allocate_frame(), None);
}

#[test]
fn empty_map_is_exhausted() {
    let mut a = BootInfoFrameAllocator::init(Vec::new());
    assert_eq!(a.allocate_frame(), None);
    assert!(a.usable_frames().is_empty());
}

#[test]
fn frame_containing_address() {
    assert_eq!(PhysFrame::containing_address(0x1234).start_address(), 0x1000);
    assert_eq!(PhysFrame::containing_address(0x2000).start_address(), 0x2000);
}

#[test]
fn unsorted_disjoint_regions_give_distinct_frames() {
    let map = vec![
        region(0x9000, 0xb000, true),
        region(0x0000, 0x1000, false),
        region(0x1000, 0x3000, true),
    ];
    let mut a = BootInfoFrameAllocator::init(map);
    let got: Vec<u64> = (0..4).map(|_| a.allocate_frame().unwrap().start_address()).collect();
    assert_eq!(got, vec![0x9000, 0xa000, 0x1000, 0x2000]);
    assert_eq!(a.allocate_frame(), None);
}
