//! Verified core of a small kernel's virtual-memory subsystem.
//!
//! The crate models the pieces that must be bit-exact for a 64-bit paged
//! architecture: canonical virtual and physical address types, the
//! hardware-defined page-table entry format, physical frame allocation from a
//! boot-supplied memory map, an offset-mapped four-level page-table walker and
//! mapper, and the free-list heap allocator layered on top of the mapped heap
//! range.

pub mod address;
pub mod allocator;
pub mod frame_allocator;
pub mod mapper;
pub mod paging;
