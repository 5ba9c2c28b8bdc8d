//! Tests of the page-table entry format and the paging data types.

use rosy::address::{PhysicalAddress, VirtualAddress};
use rosy::paging::{
    u64_to_page_table_frame_and_cr3_flags, Cr3Flags, FrameError, PageFrame, PageFrameInner,
    PageInner, PageTable, PageTableEntry, PageTableEntryFlags, PageTableIndex, PageTableLevel,
    Size2MiB, Size4KiB,
};

#[test]
fn test_u64_to_page_table_frame_and_cr3_flags() {
    let address: u64 = 0x0123_4567_89abc_def0;

    let (page_table_frame, flags) = u64_to_page_table_frame_and_cr3_flags(address);
    assert!(matches!(page_table_frame, PageFrame::Normal(_)));
    assert_eq!(
        page_table_frame.start_address().as_u64(),
        0x0000_4567_89abc_d000
    );
    assert_eq!(flags, Cr3Flags::page_level_cache_disable());
}

#[test]
fn test_new_entry_is_unused() {
    let entry = PageTableEntry::new();
    assert!(entry.is_unused());
    assert!(!entry.is_used());
    assert_eq!(entry.flags().bits(), 0);
    assert_eq!(entry.address().as_u64(), 0);
}

#[test]
fn test_unused_entry_has_no_frame() {
    let entry = PageTableEntry::new();
    assert!(matches!(
        entry.frame(PageTableLevel::Level4),
        Err(FrameError::FrameNotPresent)
    ));
}

#[test]
fn test_set_address_merges_address_and_flags() {
    let mut entry = PageTableEntry::new();
    let flags = PageTableEntryFlags::present().or(PageTableEntryFlags::writable());
    entry.set_address(PhysicalAddress::new(0xabc000), flags);
    assert!(entry.is_used());
    assert_eq!(entry.address().as_u64(), 0xabc000);
    assert!(entry.flags().contains(PageTableEntryFlags::present()));
    assert!(entry.flags().contains(PageTableEntryFlags::writable()));
    assert!(!entry.flags().contains(PageTableEntryFlags::huge_page()));
}

#[test]
fn test_set_address_preserves_previous_flags() {
    let mut entry = PageTableEntry::new();
    entry.set_address(PhysicalAddress::new(0), PageTableEntryFlags::no_execute());
    entry.set_address(
        PhysicalAddress::new(0xabc000),
        PageTableEntryFlags::present(),
    );
    assert!(entry.flags().contains(PageTableEntryFlags::no_execute()));
    assert!(entry.flags().contains(PageTableEntryFlags::present()));
}

#[test]
fn test_present_entry_maps_a_normal_frame() {
    let mut entry = PageTableEntry::new();
    entry.set_address(
        PhysicalAddress::new(0x5000),
        PageTableEntryFlags::present(),
    );
    match entry.frame(PageTableLevel::Level1) {
        Ok(PageFrame::Normal(frame)) => assert_eq!(frame.start_address().as_u64(), 0x5000),
        other => panic!("expected a normal frame, got {:?}", other),
    }
}

#[test]
fn test_huge_entry_size_class_depends_on_the_level() {
    let mut entry = PageTableEntry::new();
    entry.set_address(
        PhysicalAddress::new(0x20_0000),
        PageTableEntryFlags::present().or(PageTableEntryFlags::huge_page()),
    );
    assert!(entry.has_huge_frame());
    match entry.frame(PageTableLevel::Level3) {
        Ok(PageFrame::Huge(frame)) => assert_eq!(frame.start_address().as_u64(), 0x20_0000),
        other => panic!("expected a huge frame, got {:?}", other),
    }
    match entry.frame(PageTableLevel::Level2) {
        Ok(PageFrame::Giant(frame)) => assert_eq!(frame.start_address().as_u64(), 0),
        other => panic!("expected a giant frame, got {:?}", other),
    }
}

#[test]
fn test_flag_sets_combine_and_truncate() {
    let flags = PageTableEntryFlags::present()
        .or(PageTableEntryFlags::writable())
        .or(PageTableEntryFlags::user_accessible());
    assert_eq!(flags.bits(), 0x7);
    assert_eq!(flags.and(PageTableEntryFlags::writable()).bits(), 0x2);
    assert_eq!(
        PageTableEntryFlags::from_bits_truncate(0xffff_ffff_ffff_ffff).bits(),
        0x8000_0000_0000_01ff
    );
}

#[test]
fn test_page_table_index_truncates_to_nine_bits() {
    assert_eq!(PageTableIndex::new_truncate(512).as_usize(), 0);
    assert_eq!(PageTableIndex::new_truncate(513).as_usize(), 1);
    assert_eq!(PageTableIndex::new_truncate(511).as_usize(), 511);
}

#[test]
fn test_fresh_page_table_is_all_unused_and_clearable() {
    let mut table = PageTable::new();
    let index = PageTableIndex::from_raw(7);
    assert!(table.entry_at(index).is_unused());
    let mut entry = PageTableEntry::new();
    entry.set_address(
        PhysicalAddress::new(0x3000),
        PageTableEntryFlags::present(),
    );
    table.set_entry(index, entry);
    assert!(table.entry_at(index).is_used());
    table.clear_all_entries();
    assert!(table.entry_at(index).is_unused());
}

#[test]
fn test_page_containing_address_aligns_down_to_the_page() {
    let page: PageInner<Size4KiB> = PageInner::containing_address(VirtualAddress::new(0x1234));
    assert_eq!(page.start_address().as_u64(), 0x1000);
    let huge: PageInner<Size2MiB> = PageInner::containing_address(VirtualAddress::new(0x2f_ffff));
    assert_eq!(huge.start_address().as_u64(), 0x20_0000);
}

#[test]
fn test_frame_containing_address_aligns_down_to_the_frame() {
    let frame: PageFrameInner<Size4KiB> =
        PageFrameInner::containing_address(PhysicalAddress::new(0x1fff));
    assert_eq!(frame.start_address().as_u64(), 0x1000);
}

#[test]
fn test_page_range_walks_every_page_once() {
    let start: PageInner<Size4KiB> = PageInner::containing_address(VirtualAddress::new(0x1000));
    let end: PageInner<Size4KiB> = PageInner::containing_address(VirtualAddress::new(0x3000));
    let mut range = PageInner::range_inclusive(start, end);
    assert!(!range.is_empty());
    let mut starts = Vec::new();
    while let Some(page) = range.next() {
        starts.push(page.start_address().as_u64());
    }
    assert_eq!(starts, vec![0x1000, 0x2000, 0x3000]);
    assert!(range.is_empty());
}

#[test]
fn test_top_level_frame_is_normal_and_aligned() {
    let frame = PageFrame::top_level_containing_address(PhysicalAddress::new(0x1abc));
    assert!(matches!(frame, PageFrame::Normal(_)));
    assert_eq!(frame.start_address().as_u64(), 0x1000);
}
