//! Tests of frame allocation from the boot memory map.

use rosy::frame_allocator::{FrameAllocator, MemoryRegion, MemoryRegionKind};

#[test]
fn test_two_disjoint_regions_yield_six_distinct_frames_then_nothing() {
    let regions = vec![
        MemoryRegion {
            start: 0x1000,
            end: 0x4000,
            kind: MemoryRegionKind::Usable,
        },
        MemoryRegion {
            start: 0x10000,
            end: 0x13000,
            kind: MemoryRegionKind::Usable,
        },
    ];
    let mut allocator = FrameAllocator::new(regions);

    let mut starts = Vec::new();
    for _ in 0..6 {
        let frame = allocator
            .allocate_normal_frame()
            .expect("six frames must be available");
        starts.push(frame.start_address().as_u64());
    }
    assert_eq!(
        starts,
        vec![0x1000, 0x2000, 0x3000, 0x10000, 0x11000, 0x12000]
    );
    for (i, a) in starts.iter().enumerate() {
        for b in starts.iter().skip(i + 1) {
            assert_ne!(a, b, "no frame may be handed out twice");
        }
    }
    assert!(allocator.allocate_normal_frame().is_none());
    assert!(allocator.allocate_normal_frame().is_none());
}

#[test]
fn test_reserved_regions_are_skipped() {
    let regions = vec![
        MemoryRegion {
            start: 0x1000,
            end: 0x2000,
            kind: MemoryRegionKind::Reserved,
        },
        MemoryRegion {
            start: 0x5000,
            end: 0x6000,
            kind: MemoryRegionKind::Usable,
        },
    ];
    let mut allocator = FrameAllocator::new(regions);
    let frame = allocator.allocate_normal_frame().expect("one usable frame");
    assert_eq!(frame.start_address().as_u64(), 0x5000);
    assert!(allocator.allocate_normal_frame().is_none());
}

#[test]
fn test_empty_memory_map_yields_nothing() {
    let mut allocator = FrameAllocator::new(Vec::new());
    assert!(allocator.allocate_normal_frame().is_none());
}

#[test]
fn test_unaligned_region_frames_are_aligned_down() {
    let regions = vec![MemoryRegion {
        start: 0x1800,
        end: 0x3800,
        kind: MemoryRegionKind::Usable,
    }];
    let mut allocator = FrameAllocator::new(regions);
    let first = allocator.allocate_normal_frame().unwrap();
    let second = allocator.allocate_normal_frame().unwrap();
    assert_eq!(first.start_address().as_u64(), 0x1000);
    assert_eq!(second.start_address().as_u64(), 0x2000);
    assert!(allocator.allocate_normal_frame().is_none());
}
