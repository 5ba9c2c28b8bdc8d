//! Tests of the virtual and physical address types.

use rosy::address::{InvalidPhysicalAddress, InvalidVirtualAddress, PhysicalAddress, VirtualAddress};
use rosy::paging::{PageOffset, PageOffsetInner, PageTableIndex, PageTableLevel};

#[test]
fn test_cant_create_virtual_address_with_arbitry_bits_in_address_extension_range() {
    let invalid_virtual_address: u64 = 1 << 49;
    assert_eq!(
        VirtualAddress::try_new(invalid_virtual_address),
        Err(InvalidVirtualAddress(invalid_virtual_address))
    );
}

#[test]
fn test_perfoms_address_extension_when_address_is_not_canonical() {
    let address: u64 = 1 << 47;
    let valid_address: u64 = 0xff_ff_80_00_00_00_00_00;
    assert_eq!(
        VirtualAddress::try_new(address),
        Ok(VirtualAddress::from_raw(valid_address))
    );
}

#[test]
fn test_new_truncate_does_proper_sign_extension_zero() {
    let invalid_address: u64 = 0xff_00_00_00_00_00_00_ff;
    let valid_address: u64 = 0xff;
    assert_eq!(
        VirtualAddress::new_truncate(invalid_address),
        VirtualAddress::from_raw(valid_address)
    );
}

#[test]
fn test_new_truncate_does_proper_sign_extension_one() {
    let invalid_address: u64 = 0x00_f0_80_00_00_00_00_00;
    let valid_address: u64 = 0xff_ff_80_00_00_00_00_00;
    assert_eq!(
        VirtualAddress::new_truncate(invalid_address),
        VirtualAddress::from_raw(valid_address)
    );
}

#[test]
fn test_page_table_index_extraction_works() {
    let address: u64 = 0o001_000_777_177_2716;
    assert_eq!(
        VirtualAddress::new(address).p1_index(),
        PageTableIndex::from_raw(0o177)
    );
    assert_eq!(
        VirtualAddress::new(address).p2_index(),
        PageTableIndex::from_raw(0o777)
    );
    assert_eq!(
        VirtualAddress::new(address).p3_index(),
        PageTableIndex::from_raw(0o0)
    );
    assert_eq!(
        VirtualAddress::new(address).p4_index(),
        PageTableIndex::from_raw(0o1)
    );
}

#[test]
fn test_page_table_offset_exstaction_works() {
    let address: u64 = 0o001_000_777_177_2716;
    assert_eq!(
        VirtualAddress::new(address).page_offset(PageTableLevel::Level1),
        PageOffset::Normal(PageOffsetInner::from_raw(0o2716))
    );
}

#[test]
fn test_physical_address_creation_fails_when_there_are_bits_in_no_data_range() {
    let invalid_address: u64 = 0x00_f0_00_00_00_00_00_01;
    assert_eq!(
        PhysicalAddress::try_new(invalid_address),
        Err(InvalidPhysicalAddress(invalid_address))
    )
}

#[test]
fn test_physical_address_creation_for_legit_address() {
    let valid_address: u64 = 0x00_0f_00_00_00_00_00_01;
    assert_eq!(
        PhysicalAddress::try_new(valid_address),
        Ok(PhysicalAddress::from_raw(valid_address))
    )
}

#[test]
fn test_physical_address_align_down_gets_a_number_to_nearest_multiple_of_alignment_factor() {
    let address: u64 = 255;
    assert_eq!(
        PhysicalAddress::new(address).align_down(4),
        PhysicalAddress::from_raw(252)
    );
    assert_eq!(
        PhysicalAddress::new(address).align_down(8),
        PhysicalAddress::from_raw(248)
    );
    assert_eq!(
        PhysicalAddress::new(address).align_down(64),
        PhysicalAddress::from_raw(192)
    );
    assert_eq!(
        PhysicalAddress::new(address).align_down(256),
        PhysicalAddress::from_raw(0)
    );
}

#[test]
fn test_indices_and_offset_recombine_to_the_address() {
    let raw: u64 = 0x0000_1234_5678_9abc;
    let address = VirtualAddress::new(raw);
    let p4 = address.p4_index().as_usize() as u64;
    let p3 = address.p3_index().as_usize() as u64;
    let p2 = address.p2_index().as_usize() as u64;
    let p1 = address.p1_index().as_usize() as u64;
    let offset = match address.page_offset(PageTableLevel::Level1) {
        PageOffset::Normal(inner) => inner.as_u64(),
        _ => unreachable!(),
    };
    let recombined =
        p4 * 0x80_0000_0000 + p3 * 0x4000_0000 + p2 * 0x20_0000 + p1 * 0x1000 + offset;
    assert_eq!(recombined, raw % 0x1_0000_0000_0000);
}

#[test]
fn test_indices_recombine_for_upper_half_address() {
    let raw: u64 = 0xffff_9876_5432_1000;
    let address = VirtualAddress::new(raw);
    let p4 = address.p4_index().as_usize() as u64;
    let p3 = address.p3_index().as_usize() as u64;
    let p2 = address.p2_index().as_usize() as u64;
    let p1 = address.p1_index().as_usize() as u64;
    let recombined = p4 * 0x80_0000_0000 + p3 * 0x4000_0000 + p2 * 0x20_0000 + p1 * 0x1000
        + address.as_u64() % 0x1000;
    assert_eq!(recombined, raw % 0x1_0000_0000_0000);
}

#[test]
fn test_new_truncate_round_trips_through_try_new() {
    let inputs: [u64; 6] = [
        0,
        0x1234,
        1 << 47,
        0xdead_beef_dead_beef,
        u64::MAX,
        0x0000_7fff_ffff_ffff,
    ];
    for raw in inputs {
        let truncated = VirtualAddress::new_truncate(raw);
        assert_eq!(VirtualAddress::try_new(truncated.as_u64()), Ok(truncated));
    }
}

#[test]
fn test_align_down_is_idempotent_and_never_increases() {
    let address = PhysicalAddress::new(0xabcdef);
    for alignment in [1u64, 2, 4, 1 << 12, 1 << 21, 1 << 30] {
        let once = address.align_down(alignment);
        assert!(once.as_u64() <= address.as_u64());
        assert_eq!(once.as_u64() % alignment, 0);
        assert_eq!(once.align_down(alignment), once);
    }
}

#[test]
fn test_virtual_address_add_moves_by_the_offset() {
    let address = VirtualAddress::new(0x1000);
    assert_eq!(address.add(0x234).as_u64(), 0x1234);
}

#[test]
fn test_physical_address_add_moves_by_the_offset() {
    let address = PhysicalAddress::new(0x1000);
    assert_eq!(address.add(0x234).as_u64(), 0x1234);
}

#[test]
fn test_zero_is_the_null_address() {
    assert_eq!(VirtualAddress::zero().as_u64(), 0);
}

#[test]
fn test_page_offsets_for_huge_and_giant_levels() {
    let address = VirtualAddress::new(0x3fff_ffff);
    match address.page_offset(PageTableLevel::Level2) {
        PageOffset::Huge(inner) => assert_eq!(inner.as_u64(), 0x3fff_ffff % 0x20_0000),
        _ => unreachable!(),
    }
    match address.page_offset(PageTableLevel::Level3) {
        PageOffset::Giant(inner) => assert_eq!(inner.as_u64(), 0x3fff_ffff),
        _ => unreachable!(),
    }
}
