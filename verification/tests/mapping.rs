//! Tests of the frame allocator and the offset-mapped translator/mapper.

use rosy::address::{PhysicalAddress, VirtualAddress};
use rosy::allocator::{init_heap, LinkedListAllocator, HEAP_SIZE, HEAP_START};
use rosy::frame_allocator::{FrameAllocator, MemoryRegion, MemoryRegionKind};
use rosy::mapper::{MappingError, OffsetMemoryMapper};
use rosy::paging::{
    Page, PageFrame, PageFrameInner, PageInner, PageTableEntryFlags, Size1GiB, Size2MiB, Size4KiB,
};

fn usable(start: u64, end: u64) -> MemoryRegion {
    MemoryRegion {
        start,
        end,
        kind: MemoryRegionKind::Usable,
    }
}

fn fresh_mapper(frame_count: u64) -> OffsetMemoryMapper {
    // The root table lives below the usable region, so no handed-out
    // frame can ever collide with it.
    let regions = vec![usable(0x10_000, 0x10_000 + frame_count * 0x1000)];
    let frame_allocator = FrameAllocator::new(regions);
    OffsetMemoryMapper::new(
        VirtualAddress::zero(),
        PhysicalAddress::new(0x1000),
        frame_allocator,
    )
}

fn normal_page(start: u64) -> Page {
    Page::Normal(PageInner::<Size4KiB>::containing_address(VirtualAddress::new(start)))
}

fn normal_frame(start: u64) -> PageFrame {
    PageFrame::normal_from_raw(PhysicalAddress::new(start))
}

#[test]
fn test_fresh_mapper_translates_nothing() {
    let mapper = fresh_mapper(8);
    assert_eq!(
        mapper.translate_address(VirtualAddress::new(0x1234_5000)),
        None
    );
    assert_eq!(mapper.translate_address(VirtualAddress::zero()), None);
    assert_eq!(
        mapper.translate_address(VirtualAddress::new(0xffff_ffff_ffff_f000)),
        None
    );
}

#[test]
fn test_translation_after_map_to_returns_frame_plus_offset() {
    let mut mapper = fresh_mapper(8);
    let flags = PageTableEntryFlags::present().or(PageTableEntryFlags::writable());
    let page_start: u64 = 0x4000_0000_0000;
    let frame_start: u64 = 0xabc000;
    mapper
        .map_to(normal_page(page_start), normal_frame(frame_start), flags)
        .expect("mapping a fresh page must succeed");

    let translated = mapper
        .translate_address(VirtualAddress::new(page_start))
        .expect("the mapped page start must translate");
    assert_eq!(translated.as_u64(), frame_start);

    let inside = mapper
        .translate_address(VirtualAddress::new(page_start + 0x123))
        .expect("an address inside the page must translate");
    assert_eq!(inside.as_u64(), frame_start + 0x123);

    // An address that was never mapped still translates to nothing.
    assert_eq!(
        mapper.translate_address(VirtualAddress::new(0x5000_0000_0000)),
        None
    );
}

#[test]
fn test_remapping_a_page_fails_and_keeps_the_old_translation() {
    let mut mapper = fresh_mapper(8);
    let flags = PageTableEntryFlags::present().or(PageTableEntryFlags::writable());
    let page_start: u64 = 0x4000_0000_0000;
    mapper
        .map_to(normal_page(page_start), normal_frame(0xabc000), flags)
        .expect("the first mapping must succeed");

    let result = mapper.map_to(normal_page(page_start), normal_frame(0xdef000), flags);
    assert_eq!(result, Err(MappingError::PageTableEntryAlreadyUsed));

    let translated = mapper
        .translate_address(VirtualAddress::new(page_start))
        .expect("the old mapping must survive the failed call");
    assert_eq!(translated.as_u64(), 0xabc000);
}

#[test]
fn test_mismatched_size_classes_are_rejected() {
    let mut mapper = fresh_mapper(8);
    let flags = PageTableEntryFlags::present();
    // A 2 MiB frame paired with a 4 KiB page.
    let huge_frame = PageFrame::Huge(PageFrameInner::<Size2MiB>::containing_address(
        PhysicalAddress::new(0x20_0000),
    ));
    let result = mapper.map_to(normal_page(0x4000_0000_0000), huge_frame, flags);
    assert_eq!(result, Err(MappingError::InvalidPageFrameMapping));
}

#[test]
fn test_mapping_fails_when_the_frame_allocator_runs_dry() {
    // Two frames cannot hold the three intermediate tables a first
    // mapping needs.
    let mut mapper = fresh_mapper(2);
    let flags = PageTableEntryFlags::present();
    let result = mapper.map_to(normal_page(0x4000_0000_0000), normal_frame(0xabc000), flags);
    assert_eq!(result, Err(MappingError::FrameAllocationFailed));
}

#[test]
fn test_two_mappings_coexist() {
    let mut mapper = fresh_mapper(16);
    let flags = PageTableEntryFlags::present().or(PageTableEntryFlags::writable());
    mapper
        .map_to(normal_page(0x4000_0000_0000), normal_frame(0x111000), flags)
        .expect("first mapping");
    mapper
        .map_to(normal_page(0x4000_0000_1000), normal_frame(0x222000), flags)
        .expect("second mapping");
    assert_eq!(
        mapper
            .translate_address(VirtualAddress::new(0x4000_0000_0000))
            .unwrap()
            .as_u64(),
        0x111000
    );
    assert_eq!(
        mapper
            .translate_address(VirtualAddress::new(0x4000_0000_1fff))
            .unwrap()
            .as_u64(),
        0x222fff
    );
}

#[test]
fn test_huge_mapping_translates_its_whole_page() {
    let mut mapper = fresh_mapper(8);
    let flags = PageTableEntryFlags::present().or(PageTableEntryFlags::writable());
    let page = Page::Huge(PageInner::<Size2MiB>::containing_address(VirtualAddress::new(
        0x4000_0000_0000,
    )));
    let frame = PageFrame::Huge(PageFrameInner::<Size2MiB>::containing_address(
        PhysicalAddress::new(0x4000_0000),
    ));
    mapper.map_to(page, frame, flags).expect("huge mapping");
    for offset in [0u64, 0x123, 0x1f_ffff] {
        let translated = mapper
            .translate_address(VirtualAddress::new(0x4000_0000_0000 + offset))
            .expect("inside the huge page");
        assert_eq!(translated.as_u64(), 0x4000_0000 + offset);
    }
}

#[test]
fn test_giant_mapping_translates_through_its_terminal_slot() {
    let mut mapper = fresh_mapper(8);
    let flags = PageTableEntryFlags::present().or(PageTableEntryFlags::writable());
    let page = Page::Giant(PageInner::<Size1GiB>::containing_address(VirtualAddress::new(
        0x4000_0000_0000,
    )));
    let frame = PageFrame::Giant(PageFrameInner::<Size1GiB>::containing_address(
        PhysicalAddress::new(0x4000_0000),
    ));
    mapper.map_to(page, frame, flags).expect("giant mapping");
    // The walk discovers a giant page through one level-2 slot, which the
    // first 2 MiB window of the page reaches.
    for offset in [0u64, 0x123, 0x1f_ffff] {
        let translated = mapper
            .translate_address(VirtualAddress::new(0x4000_0000_0000 + offset))
            .expect("inside the giant page's window");
        assert_eq!(translated.as_u64(), 0x4000_0000 + offset);
    }
}

#[test]
fn test_init_heap_maps_the_whole_heap_range() {
    let mut mapper = fresh_mapper(64);
    let mut allocator = LinkedListAllocator::new();
    init_heap(&mut mapper, &mut allocator).expect("heap initialization must succeed");

    for offset in [0u64, 0x123, HEAP_SIZE / 2, HEAP_SIZE - 1] {
        assert!(
            mapper
                .translate_address(VirtualAddress::new(HEAP_START + offset))
                .is_some(),
            "heap offset {:#x} must be mapped",
            offset
        );
    }
    assert_eq!(
        mapper.translate_address(VirtualAddress::new(HEAP_START + HEAP_SIZE)),
        None
    );

    // The allocator owns exactly the heap region afterwards: the whole
    // heap can be taken in one piece, and nothing more.
    let address = allocator.allocate(HEAP_SIZE, 8);
    assert_eq!(address, Some(HEAP_START));
    assert_eq!(allocator.allocate(16, 8), None);
}

#[test]
fn test_init_heap_maps_pages_to_distinct_frames() {
    let mut mapper = fresh_mapper(64);
    let mut allocator = LinkedListAllocator::new();
    init_heap(&mut mapper, &mut allocator).expect("heap initialization must succeed");

    let mut bases = Vec::new();
    for k in 0..25u64 {
        let physical = mapper
            .translate_address(VirtualAddress::new(HEAP_START + k * 0x1000))
            .expect("every heap page must be mapped");
        bases.push(physical.as_u64());
    }
    for (i, a) in bases.iter().enumerate() {
        for b in bases.iter().skip(i + 1) {
            assert_ne!(a, b, "two heap pages may not share a backing frame");
        }
    }
}

#[test]
fn test_init_heap_reports_a_previously_mapped_heap_page() {
    let mut mapper = fresh_mapper(64);
    let flags = PageTableEntryFlags::present().or(PageTableEntryFlags::writable());
    // One heap page is already taken before the heap is set up.
    mapper
        .map_to(normal_page(HEAP_START + 0x3000), normal_frame(0xabc000), flags)
        .expect("pre-mapping must succeed");

    let mut allocator = LinkedListAllocator::new();
    let result = init_heap(&mut mapper, &mut allocator);
    assert_eq!(result, Err(MappingError::PageTableEntryAlreadyUsed));
    // The allocator was never seeded.
    assert_eq!(allocator.allocate(16, 8), None);
}

#[test]
fn test_init_heap_fails_without_enough_frames() {
    let mut mapper = fresh_mapper(4);
    let mut allocator = LinkedListAllocator::new();
    let result = init_heap(&mut mapper, &mut allocator);
    assert_eq!(result, Err(MappingError::FrameAllocationFailed));
}
