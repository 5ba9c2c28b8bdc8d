//! Tests of the heap allocators.

use rosy::allocator::{
    align_up, BumpAllocator, LinkedListAllocator, NullAllocator, NODE_SIZE,
};

#[test]
fn test_align_up_rounds_to_the_next_multiple() {
    assert_eq!(align_up(0, 8), 0);
    assert_eq!(align_up(1, 8), 8);
    assert_eq!(align_up(8, 8), 8);
    assert_eq!(align_up(9, 16), 16);
    assert_eq!(align_up(31, 16), 32);
}

#[test]
fn test_size_align_pads_to_hold_a_node() {
    assert_eq!(LinkedListAllocator::size_align(1, 1), (NODE_SIZE, 8));
    assert_eq!(LinkedListAllocator::size_align(16, 8), (16, 8));
    assert_eq!(LinkedListAllocator::size_align(17, 8), (24, 8));
    assert_eq!(LinkedListAllocator::size_align(100, 32), (128, 32));
}

#[test]
fn test_empty_allocator_refuses_everything() {
    let mut allocator = LinkedListAllocator::new();
    assert_eq!(allocator.allocate(16, 8), None);
}

#[test]
fn test_alloc_free_alloc_returns_the_same_address() {
    let mut allocator = LinkedListAllocator::new();
    allocator.init(0x10000, 0x1000);

    let first = allocator.allocate(32, 8).expect("fits easily");
    assert_eq!(first, 0x10000);
    allocator.deallocate(first, 32, 8);
    let second = allocator.allocate(32, 8).expect("the freed block fits");
    assert_eq!(second, first, "pure LIFO reuse returns the same address");
}

#[test]
fn test_fragmentation_blocks_a_request_that_would_fit_in_total() {
    let mut allocator = LinkedListAllocator::new();
    // Exactly three 64-byte blocks.
    allocator.init(0x10000, 192);

    let a = allocator.allocate(64, 8).expect("first block");
    let b = allocator.allocate(64, 8).expect("second block");
    let c = allocator.allocate(64, 8).expect("third block");
    assert_eq!((a, b, c), (0x10000, 0x10040, 0x10080));

    // Free only the middle block. 64 bytes are free, but no contiguous
    // span of 96 exists, and free regions are never merged.
    allocator.deallocate(b, 64, 8);
    assert_eq!(
        allocator.allocate(96, 8),
        None,
        "without coalescing the request must fail"
    );

    // The freed middle block itself is still available.
    assert_eq!(allocator.allocate(64, 8), Some(b));
}

#[test]
fn test_allocating_beyond_capacity_fails() {
    let mut allocator = LinkedListAllocator::new();
    allocator.init(0x10000, 192);
    assert_eq!(allocator.allocate(256, 8), None);
    // The heap itself is untouched by the failure.
    assert_eq!(allocator.allocate(192, 8), Some(0x10000));
}

#[test]
fn test_leftover_space_returns_to_the_free_list() {
    let mut allocator = LinkedListAllocator::new();
    allocator.init(0x10000, 0x100);
    let first = allocator.allocate(0x40, 8).expect("first quarter");
    assert_eq!(first, 0x10000);
    // The tail of the region went back to the list and serves the next
    // request.
    let second = allocator.allocate(0x40, 8).expect("second quarter");
    assert_eq!(second, 0x10040);
}

#[test]
fn test_region_too_small_to_split_is_skipped() {
    let mut allocator = LinkedListAllocator::new();
    // One region of 24 bytes: a 16-byte allocation would leave 8 bytes,
    // too small for a free-list node, so the region must be skipped.
    allocator.init(0x10000, 24);
    assert_eq!(allocator.allocate(16, 8), None);
    // Taking all 24 bytes works: no sliver remains.
    assert_eq!(allocator.allocate(24, 8), Some(0x10000));
}

#[test]
fn test_bump_allocator_bumps_and_only_resets_when_empty() {
    let mut bump = BumpAllocator::new();
    bump.init(0x1000, 0x100);

    let first = bump.allocate(16, 8).expect("fits");
    assert_eq!(first, 0x1000);
    let second = bump.allocate(16, 16).expect("fits");
    assert_eq!(second, 0x1010);

    bump.deallocate();
    // One allocation is still live: the cursor must not reset.
    let third = bump.allocate(16, 8).expect("fits");
    assert_eq!(third, 0x1020);

    bump.deallocate();
    bump.deallocate();
    // Everything was freed: the cursor returns to the heap start.
    let fourth = bump.allocate(16, 8).expect("fits");
    assert_eq!(fourth, 0x1000);
}

#[test]
fn test_bump_allocator_runs_out_at_the_heap_end() {
    let mut bump = BumpAllocator::new();
    bump.init(0x1000, 0x20);
    assert!(bump.allocate(0x30, 8).is_some());
    // The cursor ran past the end: the next request fails.
    assert_eq!(bump.allocate(8, 8), None);
}

#[test]
fn test_null_allocator_always_fails() {
    let null = NullAllocator;
    assert_eq!(null.allocate(1, 1), None);
    assert_eq!(null.allocate(4096, 4096), None);
}
