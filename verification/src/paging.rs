//! The hardware-defined paging structures: page-table entries and their
//! flags, 9-bit table indices, the three page sizes, pages, frames, page
//! offsets, and the 512-entry page table itself.

use vstd::prelude::*;

use crate::address::{
    align_down_spec, canonical, is_power_of_two, sign_extend, valid_physical, PhysicalAddress,
    VirtualAddress, PHYSICAL_ADDRESS_LIMIT,
};
use core::marker::PhantomData;

verus! {

/// Number of entries in a page table of any level.
pub const ENTRY_COUNT: usize = 512;

/// Bits 12 to 51 of a page-table entry: the physical address it maps.
pub const PAGE_TABLE_ENTRY_PHYSICAL_ADDRESS_MASK: u64 = 0x000f_ffff_ffff_f000;

/// The bits of a page-table entry that carry architectural flags: bits 0
/// to 8 and bit 63.
pub const PAGE_TABLE_ENTRY_FLAGS_MASK: u64 = 0x8000_0000_0000_01ff;

/// Byte size of a normal page: 4 KiB.
pub const NORMAL_PAGE_SIZE: u64 = 0x1000;

/// Byte size of a huge page: 2 MiB.
pub const HUGE_PAGE_SIZE: u64 = 0x20_0000;

/// Byte size of a giant page: 1 GiB.
pub const GIANT_PAGE_SIZE: u64 = 0x4000_0000;

/// The present flag (bit 0) of a raw entry word.
pub open spec fn entry_present(e: u64) -> bool {
    e & 0x1 == 0x1
}

/// The huge-page flag (bit 7) of a raw entry word.
pub open spec fn entry_huge(e: u64) -> bool {
    e & 0x80 == 0x80
}

/// The physical address carried in bits 12 to 51 of a raw entry word.
pub open spec fn entry_address(e: u64) -> u64 {
    e & PAGE_TABLE_ENTRY_PHYSICAL_ADDRESS_MASK
}

/// Flags of one page-table entry, a subset of the bits in
/// [`PAGE_TABLE_ENTRY_FLAGS_MASK`].
#[derive(Clone, Copy, PartialEq, Eq, Structural, Debug)]
pub struct PageTableEntryFlags {
    bits: u64,
}

impl PageTableEntryFlags {
    /// A flag set never carries bits outside the architectural flag
    /// positions, so merging it into an entry cannot disturb the address.
    #[verifier::type_invariant]
    pub(crate) open spec fn well_formed(self) -> bool {
        self@ & PAGE_TABLE_ENTRY_FLAGS_MASK == self@
    }
}

/// A named flag constant stays within the flag mask.
proof fn lemma_flag_literal(b: u64)
    requires
        b == 0x0 || b == 0x1 || b == 0x2 || b == 0x4 || b == 0x8 || b == 0x10 || b == 0x20 || b
            == 0x40 || b == 0x80 || b == 0x100 || b == 0x8000_0000_0000_0000,
    ensures
        b & PAGE_TABLE_ENTRY_FLAGS_MASK == b,
{
    assert((b == 0x0 || b == 0x1 || b == 0x2 || b == 0x4 || b == 0x8 || b == 0x10 || b == 0x20
        || b == 0x40 || b == 0x80 || b == 0x100 || b == 0x8000_0000_0000_0000) ==> b
        & 0x8000_0000_0000_01ffu64 == b) by (bit_vector);
}

/// Unions and intersections of flag sets stay within the flag mask.
proof fn lemma_flag_combine(a: u64, b: u64)
    requires
        a & PAGE_TABLE_ENTRY_FLAGS_MASK == a,
        b & PAGE_TABLE_ENTRY_FLAGS_MASK == b,
    ensures
        (a | b) & PAGE_TABLE_ENTRY_FLAGS_MASK == (a | b),
        (a & b) & PAGE_TABLE_ENTRY_FLAGS_MASK == (a & b),
{
    assert((a & 0x8000_0000_0000_01ffu64 == a && b & 0x8000_0000_0000_01ffu64 == b) ==> ((a | b)
        & 0x8000_0000_0000_01ffu64 == (a | b) && (a & b) & 0x8000_0000_0000_01ffu64 == (a & b)))
        by (bit_vector);
}

/// Truncating to the flag mask is idempotent.
proof fn lemma_flag_truncate(x: u64)
    ensures
        (x & PAGE_TABLE_ENTRY_FLAGS_MASK) & PAGE_TABLE_ENTRY_FLAGS_MASK == x
            & PAGE_TABLE_ENTRY_FLAGS_MASK,
{
    assert((x & 0x8000_0000_0000_01ffu64) & 0x8000_0000_0000_01ffu64 == x
        & 0x8000_0000_0000_01ffu64) by (bit_vector);
}

impl View for PageTableEntryFlags {
    type V = u64;

    closed spec fn view(&self) -> u64 {
        self.bits
    }
}

impl PageTableEntryFlags {
    /// No flag set.
    pub fn empty() -> (r: Self)
        ensures
            r@ == 0u64,
    {
        proof {
            lemma_flag_literal(0x0);
        }
        PageTableEntryFlags { bits: 0 }
    }

    /// The entry is backed by memory (bit 0).
    pub fn present() -> (r: Self)
        ensures
            r@ == 0x1u64,
    {
        proof {
            lemma_flag_literal(0x1);
        }
        PageTableEntryFlags { bits: 0x1 }
    }

    /// Writes to the mapped range are allowed (bit 1).
    pub fn writable() -> (r: Self)
        ensures
            r@ == 0x2u64,
    {
        proof {
            lemma_flag_literal(0x2);
        }
        PageTableEntryFlags { bits: 0x2 }
    }

    /// Unprivileged code may access the mapped range (bit 2).
    pub fn user_accessible() -> (r: Self)
        ensures
            r@ == 0x4u64,
    {
        proof {
            lemma_flag_literal(0x4);
        }
        PageTableEntryFlags { bits: 0x4 }
    }

    /// Writes go directly to memory (bit 3).
    pub fn write_through() -> (r: Self)
        ensures
            r@ == 0x8u64,
    {
        proof {
            lemma_flag_literal(0x8);
        }
        PageTableEntryFlags { bits: 0x8 }
    }

    /// No cache is used for the mapped range (bit 4).
    pub fn no_cache() -> (r: Self)
        ensures
            r@ == 0x10u64,
    {
        proof {
            lemma_flag_literal(0x10);
        }
        PageTableEntryFlags { bits: 0x10 }
    }

    /// The processor set this when the entry was used (bit 5).
    pub fn accessed() -> (r: Self)
        ensures
            r@ == 0x20u64,
    {
        proof {
            lemma_flag_literal(0x20);
        }
        PageTableEntryFlags { bits: 0x20 }
    }

    /// The processor set this when it wrote through the entry (bit 6).
    pub fn dirty() -> (r: Self)
        ensures
            r@ == 0x40u64,
    {
        proof {
            lemma_flag_literal(0x40);
        }
        PageTableEntryFlags { bits: 0x40 }
    }

    /// The entry maps a huge frame instead of a further table (bit 7).
    pub fn huge_page() -> (r: Self)
        ensures
            r@ == 0x80u64,
    {
        proof {
            lemma_flag_literal(0x80);
        }
        PageTableEntryFlags { bits: 0x80 }
    }

    /// The mapping is kept across address-space switches (bit 8).
    pub fn global_page() -> (r: Self)
        ensures
            r@ == 0x100u64,
    {
        proof {
            lemma_flag_literal(0x100);
        }
        PageTableEntryFlags { bits: 0x100 }
    }

    /// Code execution from the mapped range is forbidden (bit 63).
    pub fn no_execute() -> (r: Self)
        ensures
            r@ == 0x8000_0000_0000_0000u64,
    {
        proof {
            lemma_flag_literal(0x8000_0000_0000_0000);
        }
        PageTableEntryFlags { bits: 0x8000_0000_0000_0000 }
    }

    /// The union of two flag sets.
    pub fn or(self, other: Self) -> (r: Self)
        ensures
            r@ == self@ | other@,
    {
        proof {
            use_type_invariant(&self);
            use_type_invariant(&other);
            lemma_flag_combine(self.bits, other.bits);
        }
        PageTableEntryFlags { bits: self.bits | other.bits }
    }

    /// The intersection of two flag sets.
    pub fn and(self, other: Self) -> (r: Self)
        ensures
            r@ == self@ & other@,
    {
        proof {
            use_type_invariant(&self);
            use_type_invariant(&other);
            lemma_flag_combine(self.bits, other.bits);
        }
        PageTableEntryFlags { bits: self.bits & other.bits }
    }

    /// Whether every flag of `other` is also set in `self`.
    pub fn contains(self, other: Self) -> (r: bool)
        ensures
            r == (self@ & other@ == other@),
    {
        self.bits & other.bits == other.bits
    }

    /// The raw flag bits.
    pub fn bits(&self) -> (r: u64)
        ensures
            r == self@,
    {
        self.bits
    }

    /// Keeps the bits of `bits` that are architectural flags and drops the
    /// rest.
    pub fn from_bits_truncate(bits: u64) -> (r: Self)
        ensures
            r@ == bits & PAGE_TABLE_ENTRY_FLAGS_MASK,
    {
        proof {
            lemma_flag_truncate(bits);
        }
        PageTableEntryFlags { bits: bits & PAGE_TABLE_ENTRY_FLAGS_MASK }
    }
}

/// Which table of the four-level hierarchy an entry was read from.
///
/// Level 4 is the root; level 1 entries always map normal frames. An entry
/// with the huge flag read at level 3 maps a 2 MiB frame, read at level 2 a
/// 1 GiB frame; the hardware never sets the huge flag at level 4 or 1.
#[derive(Debug, Clone, Copy, PartialEq, Eq, Structural)]
pub enum PageTableLevel {
    /// Lowest level; entries exclusively map normal frames.
    Level1,
    /// Entries map further tables, or 1 GiB frames when huge.
    Level2,
    /// Entries map further tables, or 2 MiB frames when huge.
    Level3,
    /// The root table; entries exclusively map further tables.
    Level4,
}

/// One slot of a page table: a 64-bit word combining a physical address
/// (bits 12 to 51) with flags (bits 0 to 8 and 63).
#[derive(Clone, Copy, PartialEq, Eq, Structural, Debug)]
pub struct PageTableEntry {
    entry: u64,
}

impl View for PageTableEntry {
    type V = u64;

    closed spec fn view(&self) -> u64 {
        self.entry
    }
}

impl PageTableEntry {
    /// A zeroed, unused entry.
    pub fn new() -> (r: PageTableEntry)
        ensures
            r@ == 0u64,
    {
        PageTableEntry { entry: 0 }
    }

    /// The flag bits of this entry.
    pub fn flags(&self) -> (r: PageTableEntryFlags)
        ensures
            r@ == self@ & PAGE_TABLE_ENTRY_FLAGS_MASK,
    {
        PageTableEntryFlags::from_bits_truncate(self.entry)
    }

    /// The physical address this entry maps.
    pub fn address(&self) -> (r: PhysicalAddress)
        ensures
            r@ == entry_address(self@),
    {
        proof {
            let e = self.entry;
            assert(e & PAGE_TABLE_ENTRY_PHYSICAL_ADDRESS_MASK < PHYSICAL_ADDRESS_LIMIT)
                by (bit_vector);
        }
        PhysicalAddress::new(self.entry & PAGE_TABLE_ENTRY_PHYSICAL_ADDRESS_MASK)
    }

    /// Whether this entry is all zero: never mapped and safe to overwrite.
    pub fn is_unused(&self) -> (r: bool)
        ensures
            r == (self@ == 0u64),
    {
        self.entry == 0
    }

    /// Whether any bit of this entry is set.
    pub fn is_used(&self) -> (r: bool)
        ensures
            r == (self@ != 0u64),
    {
        !self.is_unused()
    }

    /// Whether the huge-page flag is set.
    pub fn has_huge_frame(&self) -> (r: bool)
        ensures
            r == entry_huge(self@),
    {
        proof {
            let e = self.entry;
            assert((e & PAGE_TABLE_ENTRY_FLAGS_MASK) & 0x80 == 0x80 <==> e & 0x80 == 0x80)
                by (bit_vector);
        }
        self.flags().contains(PageTableEntryFlags::huge_page())
    }

    /// The physical frame mapped by this entry, read at table level
    /// `entry_level`.
    ///
    /// Returns `FrameError::FrameNotPresent` when the present flag is
    /// clear. A set huge flag at level 4 or level 1 cannot be produced by
    /// the hardware and indicates table corruption, a fatal condition that
    /// the precondition rules out.
    pub fn frame(&self, entry_level: PageTableLevel) -> (r: Result<PageFrame, FrameError>)
        requires
            entry_present(self@) && entry_huge(self@) ==> entry_level == PageTableLevel::Level3
                || entry_level == PageTableLevel::Level2,
        ensures
            match r {
                Ok(f) => entry_present(self@) && if entry_huge(self@) {
                    &&& (entry_level == PageTableLevel::Level3 ==> f is Huge)
                    &&& (entry_level == PageTableLevel::Level2 ==> f is Giant)
                    &&& f.spec_start() == align_down_spec(entry_address(self@), f.spec_size())
                } else {
                    f is Normal && f.spec_start() == entry_address(self@)
                },
                Err(e) => !entry_present(self@) && e == FrameError::FrameNotPresent,
            },
    {
        proof {
            let e = self.entry;
            assert((e & PAGE_TABLE_ENTRY_FLAGS_MASK) & 0x1 == 0x1 <==> e & 0x1 == 0x1)
                by (bit_vector);
            assert((e & PAGE_TABLE_ENTRY_FLAGS_MASK) & 0x80 == 0x80 <==> e & 0x80 == 0x80)
                by (bit_vector);
            assert((e & PAGE_TABLE_ENTRY_PHYSICAL_ADDRESS_MASK) % 0x1000 == 0) by (bit_vector);
        }
        if !self.flags().contains(PageTableEntryFlags::present()) {
            Err(FrameError::FrameNotPresent)
        } else if self.flags().contains(PageTableEntryFlags::huge_page()) {
            match entry_level {
                PageTableLevel::Level3 => Ok(
                    PageFrame::Huge(PageFrameInner::containing_address(self.address())),
                ),
                PageTableLevel::Level2 => Ok(
                    PageFrame::Giant(PageFrameInner::containing_address(self.address())),
                ),
                _ => {
                    proof {
                        assert(false);
                    }
                    Err(FrameError::FrameNotPresent)
                },
            }
        } else {
            Ok(PageFrame::Normal(PageFrameInner::containing_address(self.address())))
        }
    }

    /// Merges a 4 KiB-aligned physical address into this entry together
    /// with `flags`, keeping every flag bit that was already set.
    pub fn set_address(&mut self, address: PhysicalAddress, flags: PageTableEntryFlags)
        requires
            address@ % 0x1000 == 0,
        ensures
            final(self)@ == address@ | (old(self)@ & PAGE_TABLE_ENTRY_FLAGS_MASK) | flags@,
    {
        proof {
            use_type_invariant(&address);
            let a = address@;
            let e = self.entry;
            let f = flags@;
            assert(a | ((e & PAGE_TABLE_ENTRY_FLAGS_MASK) | f) == (a | (e
                & PAGE_TABLE_ENTRY_FLAGS_MASK)) | f) by (bit_vector);
        }
        self.entry = address.as_u64() | (self.flags().bits() | flags.bits());
    }
}

/// A 9-bit index selecting one of the 512 entries of a page table.
#[derive(Debug, Clone, Copy, PartialEq, Eq, Structural)]
pub struct PageTableIndex(u16);

impl PageTableIndex {
    #[verifier::type_invariant]
    pub(crate) open spec fn well_formed(self) -> bool {
        self@ < 512
    }
}

impl View for PageTableIndex {
    type V = u16;

    closed spec fn view(&self) -> u16 {
        self.0
    }
}

impl PageTableIndex {
    /// Creates an index from the low 9 bits of `index`, dropping the rest.
    pub fn new_truncate(index: u16) -> (r: PageTableIndex)
        ensures
            r@ == index % 512,
    {
        PageTableIndex(index % (ENTRY_COUNT as u16))
    }

    /// Wraps a value that is already below 512.
    pub fn from_raw(index: u16) -> (r: PageTableIndex)
        requires
            index < 512,
        ensures
            r@ == index,
    {
        PageTableIndex(index)
    }

    /// The index as a `usize`, always below 512.
    pub fn as_usize(&self) -> (r: usize)
        ensures
            r == self@ as usize,
            r < 512,
    {
        proof {
            use_type_invariant(self);
        }
        self.0 as usize
    }
}

/// Abstracts over the three page sizes of this architecture.
pub trait PageSize: Copy {
    /// The page size in bytes, as seen by specifications.
    spec fn spec_size() -> u64;

    /// The size is one of 4 KiB, 2 MiB and 1 GiB.
    proof fn size_properties()
        ensures
            Self::spec_size() == NORMAL_PAGE_SIZE || Self::spec_size() == HUGE_PAGE_SIZE
                || Self::spec_size() == GIANT_PAGE_SIZE,
    ;

    /// The page size in bytes.
    fn size() -> (s: u64)
        ensures
            s == Self::spec_size(),
    ;
}

/// A normal 4 KiB page.
#[derive(Debug, Clone, Copy, PartialEq, Eq, Structural)]
pub struct Size4KiB {}

impl PageSize for Size4KiB {
    open spec fn spec_size() -> u64 {
        NORMAL_PAGE_SIZE
    }

    proof fn size_properties() {
    }

    fn size() -> u64 {
        4 * 1024
    }
}

/// A huge 2 MiB page.
#[derive(Debug, Clone, Copy, PartialEq, Eq, Structural)]
pub struct Size2MiB {}

impl PageSize for Size2MiB {
    open spec fn spec_size() -> u64 {
        HUGE_PAGE_SIZE
    }

    proof fn size_properties() {
    }

    fn size() -> u64 {
        2 * 1024 * 1024
    }
}

/// A giant 1 GiB page, only available on newer processors.
#[derive(Debug, Clone, Copy, PartialEq, Eq, Structural)]
pub struct Size1GiB {}

impl PageSize for Size1GiB {
    open spec fn spec_size() -> u64 {
        GIANT_PAGE_SIZE
    }

    proof fn size_properties() {
    }

    fn size() -> u64 {
        1024 * 1024 * 1024
    }
}

/// Aligning a canonical address down to a page size keeps it canonical.
proof fn lemma_align_keeps_canonical(v: u64, s: u64)
    requires
        canonical(v),
        s == NORMAL_PAGE_SIZE || s == HUGE_PAGE_SIZE || s == GIANT_PAGE_SIZE,
    ensures
        canonical(align_down_spec(v, s)),
{
    assert(canonical(v) ==> canonical((v - v % 0x1000u64) as u64)) by (bit_vector);
    assert(canonical(v) ==> canonical((v - v % 0x20_0000u64) as u64)) by (bit_vector);
    assert(canonical(v) ==> canonical((v - v % 0x4000_0000u64) as u64)) by (bit_vector);
}

/// Aligning down lands on a multiple of the alignment and does not
/// increase the value.
pub(crate) proof fn lemma_align_is_aligned(v: u64, s: u64)
    requires
        s > 0,
    ensures
        align_down_spec(v, s) % s == 0,
        align_down_spec(v, s) <= v,
        v % s <= v,
        v % s < s,
{
    assert(v % s <= v && ((v - v % s) as u64) % s == 0 && v % s < s) by (nonlinear_arith)
        requires
            s > 0,
    ;
}

/// A virtual page of size `S`, always aligned to its size.
#[derive(Debug, Copy)]
pub struct PageInner<S> where S: PageSize {
    start_address: VirtualAddress,
    _size: PhantomData<S>,
}

impl<S: PageSize> Clone for PageInner<S> {
    fn clone(&self) -> (r: Self)
        ensures
            r == *self,
    {
        *self
    }
}

impl<S: PageSize> PageInner<S> {
    #[verifier::type_invariant]
    pub(crate) open spec fn well_formed(self) -> bool {
        self.spec_start() % S::spec_size() == 0
    }

    /// The first address of the page, as seen by specifications.
    pub closed spec fn spec_start(self) -> u64 {
        self.start_address@
    }

    /// The page of size `S` that contains the given address: the address
    /// is rounded down to the page boundary.
    pub fn containing_address(address: VirtualAddress) -> (r: PageInner<S>)
        ensures
            r.spec_start() == align_down_spec(address@, S::spec_size()),
    {
        proof {
            use_type_invariant(&address);
            S::size_properties();
            lemma_align_keeps_canonical(address@, S::spec_size());
            lemma_align_is_aligned(address@, S::spec_size());
        }
        let size: u64 = S::size();
        let raw: u64 = address.as_u64();
        PageInner { start_address: VirtualAddress::from_raw(raw - raw % size), _size: PhantomData }
    }

    /// The first address of the page.
    pub fn start_address(&self) -> (r: VirtualAddress)
        ensures
            r@ == self.spec_start(),
    {
        self.start_address
    }

    /// Index of this page in the level-4 table.
    pub(crate) fn p4_index(&self) -> (r: PageTableIndex)
        ensures
            r@ as u64 == crate::address::l4_index_of(self.spec_start()),
    {
        self.start_address.p4_index()
    }

    /// Index of this page in the level-3 table.
    pub(crate) fn p3_index(&self) -> (r: PageTableIndex)
        ensures
            r@ as u64 == crate::address::l3_index_of(self.spec_start()),
    {
        self.start_address.p3_index()
    }

    /// Index of this page in the level-2 table.
    pub(crate) fn p2_index(&self) -> (r: PageTableIndex)
        ensures
            r@ as u64 == crate::address::l2_index_of(self.spec_start()),
    {
        self.start_address.p2_index()
    }

    /// Index of this page in the level-1 table.
    pub(crate) fn p1_index(&self) -> (r: PageTableIndex)
        ensures
            r@ as u64 == crate::address::l1_index_of(self.spec_start()),
    {
        self.start_address.p1_index()
    }

    /// The pages from `start` to `end`, both included.
    pub fn range_inclusive(start: Self, end: Self) -> (r: PageRangeInclusive<S>)
        ensures
            r.start == start,
            r.end == end,
    {
        PageRangeInclusive { start, end }
    }

    /// The page `rhs` pages above this one.
    pub fn add(self, rhs: u64) -> (r: Self)
        requires
            rhs * S::spec_size() <= u64::MAX,
            self.spec_start() + rhs * S::spec_size() <= u64::MAX,
            crate::address::acceptable_virtual(
                (self.spec_start() + rhs * S::spec_size()) as u64,
            ),
        ensures
            r.spec_start() == align_down_spec(
                sign_extend((self.spec_start() + rhs * S::spec_size()) as u64),
                S::spec_size(),
            ),
    {
        let step: u64 = rhs * S::size();
        Self::containing_address(self.start_address.add(step))
    }
}

/// A virtual page of one of the three size classes.
#[derive(Debug, Clone, Copy)]
pub enum Page {
    /// A 4 KiB page.
    Normal(PageInner<Size4KiB>),
    /// A 2 MiB page.
    Huge(PageInner<Size2MiB>),
    /// A 1 GiB page.
    Giant(PageInner<Size1GiB>),
}

impl Page {
    /// The first address of the page, as seen by specifications.
    pub open spec fn spec_start(self) -> u64 {
        match self {
            Page::Normal(inner) => inner.spec_start(),
            Page::Huge(inner) => inner.spec_start(),
            Page::Giant(inner) => inner.spec_start(),
        }
    }

    /// The byte size of the page, as seen by specifications.
    pub open spec fn spec_size(self) -> u64 {
        match self {
            Page::Normal(_) => NORMAL_PAGE_SIZE,
            Page::Huge(_) => HUGE_PAGE_SIZE,
            Page::Giant(_) => GIANT_PAGE_SIZE,
        }
    }

    /// The first address of the page.
    pub fn start_address(&self) -> (r: VirtualAddress)
        ensures
            r@ == self.spec_start(),
    {
        match self {
            Page::Normal(inner) => inner.start_address(),
            Page::Huge(inner) => inner.start_address(),
            Page::Giant(inner) => inner.start_address(),
        }
    }
}

/// Reading an entry whose present flag is clear yields no frame.
#[derive(Debug, Clone, Copy, PartialEq, Eq, Structural)]
pub enum FrameError {
    /// The present flag of the entry is clear.
    FrameNotPresent,
}

/// A physical memory frame of size `S`, always aligned to its size.
///
/// This is the terminal object a page-table entry points to; it is
/// essentially a physical address.
#[derive(Debug, Copy)]
pub struct PageFrameInner<S> where S: PageSize {
    start_address: PhysicalAddress,
    size: PhantomData<S>,
}

impl<S: PageSize> Clone for PageFrameInner<S> {
    fn clone(&self) -> (r: Self)
        ensures
            r == *self,
    {
        *self
    }
}

impl<S: PageSize> PageFrameInner<S> {
    #[verifier::type_invariant]
    pub(crate) open spec fn well_formed(self) -> bool {
        self.spec_start() % S::spec_size() == 0
    }

    /// The first address of the frame, as seen by specifications.
    pub closed spec fn spec_start(self) -> u64 {
        self.start_address@
    }

    /// The frame of size `S` that contains the given address.
    pub fn containing_address(address: PhysicalAddress) -> (r: Self)
        ensures
            r.spec_start() == align_down_spec(address@, S::spec_size()),
    {
        proof {
            S::size_properties();
            assert(is_power_of_two(0x1000u64) && is_power_of_two(0x20_0000u64) && is_power_of_two(
                0x4000_0000u64,
            )) by (bit_vector);
            lemma_align_is_aligned(address@, S::spec_size());
        }
        PageFrameInner { start_address: address.align_down(S::size()), size: PhantomData }
    }

    /// The first address of the frame.
    pub fn start_address(&self) -> (r: PhysicalAddress)
        ensures
            r@ == self.spec_start(),
    {
        self.start_address
    }

    /// Wraps an address that is already aligned to the frame size.
    pub fn from_raw(address: PhysicalAddress) -> (r: Self)
        requires
            address@ % S::spec_size() == 0,
        ensures
            r.spec_start() == address@,
    {
        PageFrameInner { start_address: address, size: PhantomData }
    }
}

/// A physical memory frame of one of the three size classes.
#[derive(Debug, Clone, Copy)]
pub enum PageFrame {
    /// A 4 KiB frame.
    Normal(PageFrameInner<Size4KiB>),
    /// A 2 MiB frame.
    Huge(PageFrameInner<Size2MiB>),
    /// A 1 GiB frame.
    Giant(PageFrameInner<Size1GiB>),
}

impl PageFrame {
    /// The first address of the frame, as seen by specifications.
    pub open spec fn spec_start(self) -> u64 {
        match self {
            PageFrame::Normal(inner) => inner.spec_start(),
            PageFrame::Huge(inner) => inner.spec_start(),
            PageFrame::Giant(inner) => inner.spec_start(),
        }
    }

    /// The byte size of the frame, as seen by specifications.
    pub open spec fn spec_size(self) -> u64 {
        match self {
            PageFrame::Normal(_) => NORMAL_PAGE_SIZE,
            PageFrame::Huge(_) => HUGE_PAGE_SIZE,
            PageFrame::Giant(_) => GIANT_PAGE_SIZE,
        }
    }

    /// The first address of the frame.
    pub fn start_address(&self) -> (r: PhysicalAddress)
        ensures
            r@ == self.spec_start(),
    {
        match self {
            PageFrame::Normal(inner) => inner.start_address(),
            PageFrame::Huge(inner) => inner.start_address(),
            PageFrame::Giant(inner) => inner.start_address(),
        }
    }

    /// The physical address at the same offset into this frame as `addr`
    /// is into its page.
    pub(crate) fn convert(&self, addr: VirtualAddress) -> (r: PhysicalAddress)
        ensures
            r@ == self.spec_start() + addr@ % self.spec_size(),
    {
        proof {
            match self {
                PageFrame::Normal(inner) => {
                    use_type_invariant(inner);
                    use_type_invariant(&inner.start_address);
                },
                PageFrame::Huge(inner) => {
                    use_type_invariant(inner);
                    use_type_invariant(&inner.start_address);
                },
                PageFrame::Giant(inner) => {
                    use_type_invariant(inner);
                    use_type_invariant(&inner.start_address);
                },
            }
            lemma_frame_offset_fits(self.spec_start(), addr@, self.spec_size());
        }
        match self {
            PageFrame::Normal(inner) => {
                let offset: u64 = addr.as_u64() % (4 * 1024);
                inner.start_address().add(offset)
            },
            PageFrame::Huge(inner) => {
                let offset: u64 = addr.as_u64() % (2 * 1024 * 1024);
                inner.start_address().add(offset)
            },
            PageFrame::Giant(inner) => {
                let offset: u64 = addr.as_u64() % (1024 * 1024 * 1024);
                inner.start_address().add(offset)
            },
        }
    }

    /// The level-4 frame read from the raw translation root register
    /// value: always a normal frame.
    pub fn top_level_containing_address(address: PhysicalAddress) -> (r: Self)
        ensures
            r is Normal,
            r.spec_start() == align_down_spec(address@, NORMAL_PAGE_SIZE),
    {
        PageFrame::Normal(PageFrameInner::containing_address(address))
    }

    /// Whether this frame is larger than a normal page.
    pub(crate) fn is_huge(&self) -> (r: bool)
        ensures
            r == !(self is Normal),
    {
        match self {
            PageFrame::Normal(_) => false,
            _ => true,
        }
    }

    /// Wraps a 4 KiB-aligned physical address as a normal frame.
    pub fn normal_from_raw(address: PhysicalAddress) -> (r: Self)
        requires
            address@ % NORMAL_PAGE_SIZE == 0,
        ensures
            r is Normal,
            r.spec_start() == address@,
    {
        PageFrame::Normal(PageFrameInner::from_raw(address))
    }
}

/// A frame start aligned to its size, plus any offset within the frame,
/// stays a valid physical address.
proof fn lemma_frame_offset_fits(start: u64, addr: u64, s: u64)
    requires
        valid_physical(start),
        start % s == 0,
        s == NORMAL_PAGE_SIZE || s == HUGE_PAGE_SIZE || s == GIANT_PAGE_SIZE,
    ensures
        start + addr % s < PHYSICAL_ADDRESS_LIMIT,
{
    assert((start < 0x10_0000_0000_0000 && start % 0x1000u64 == 0) ==> start + addr % 0x1000u64
        < 0x10_0000_0000_0000) by (bit_vector);
    assert((start < 0x10_0000_0000_0000 && start % 0x20_0000u64 == 0) ==> start + addr
        % 0x20_0000u64 < 0x10_0000_0000_0000) by (bit_vector);
    assert((start < 0x10_0000_0000_0000 && start % 0x4000_0000u64 == 0) ==> start + addr
        % 0x4000_0000u64 < 0x10_0000_0000_0000) by (bit_vector);
}

/// An offset into a page or frame of size `S`, always below that size.
#[derive(Debug, Copy, PartialEq, Eq)]
pub struct PageOffsetInner<S> where S: PageSize {
    offset: u32,
    _phantom: PhantomData<S>,
}

impl<S: PageSize> Clone for PageOffsetInner<S> {
    fn clone(&self) -> (r: Self)
        ensures
            r == *self,
    {
        *self
    }
}

impl<S: PageSize> PageOffsetInner<S> {
    #[verifier::type_invariant]
    spec fn well_formed(self) -> bool {
        self.offset < S::spec_size()
    }

    /// The offset value, as seen by specifications.
    pub closed spec fn spec_value(self) -> u64 {
        self.offset as u64
    }

    /// Creates an offset from `offset` modulo the page size.
    pub fn new_truncate(offset: u32) -> (r: Self)
        ensures
            r.spec_value() == offset as u64 % S::spec_size(),
    {
        proof {
            S::size_properties();
        }
        let size: u32 = S::size() as u32;
        PageOffsetInner { offset: offset % size, _phantom: PhantomData }
    }

    /// Wraps a value that is already below the page size.
    pub fn from_raw(index: u32) -> (r: Self)
        requires
            index < S::spec_size(),
        ensures
            r.spec_value() == index as u64,
    {
        PageOffsetInner { offset: index, _phantom: PhantomData }
    }

    /// The offset as a `u64`.
    pub fn as_u64(&self) -> (r: u64)
        ensures
            r == self.spec_value(),
    {
        self.offset as u64
    }
}

/// An offset into a page or frame of one of the three size classes: 12
/// significant bits for a normal page, 21 for a huge page, 30 for a giant
/// page.
#[derive(Debug, Clone, Copy, PartialEq, Eq)]
pub enum PageOffset {
    /// An offset below 4 KiB.
    Normal(PageOffsetInner<Size4KiB>),
    /// An offset below 2 MiB.
    Huge(PageOffsetInner<Size2MiB>),
    /// An offset below 1 GiB.
    Giant(PageOffsetInner<Size1GiB>),
}

impl PageOffset {
    /// The offset value, as seen by specifications.
    pub open spec fn spec_value(self) -> u64 {
        match self {
            PageOffset::Normal(offset) => offset.spec_value(),
            PageOffset::Huge(offset) => offset.spec_value(),
            PageOffset::Giant(offset) => offset.spec_value(),
        }
    }

    /// The offset as a `u64`.
    pub fn as_u64(&self) -> (r: u64)
        ensures
            r == self.spec_value(),
    {
        match self {
            PageOffset::Normal(offset) => offset.as_u64(),
            PageOffset::Huge(offset) => offset.as_u64(),
            PageOffset::Giant(offset) => offset.as_u64(),
        }
    }
}

/// A page table: 512 entries, read and written directly by the hardware.
///
/// Its view is the sequence of the 512 raw entry words.
pub struct PageTable {
    entries: Vec<PageTableEntry>,
}

impl PageTable {
    #[verifier::type_invariant]
    spec fn well_formed(self) -> bool {
        self.entries@.len() == 512
    }
}

impl View for PageTable {
    type V = Seq<u64>;

    closed spec fn view(&self) -> Seq<u64> {
        self.entries@.map_values(|e: PageTableEntry| e@)
    }
}

impl PageTable {
    /// A table with all 512 entries unused.
    pub fn new() -> (r: PageTable)
        ensures
            r@.len() == 512,
            forall|i: int| 0 <= i < 512 ==> r@[i] == 0u64,
    {
        let mut entries: Vec<PageTableEntry> = Vec::new();
        let mut filled: usize = 0;
        while filled < 512
            invariant
                entries@.len() == filled,
                filled <= 512,
                forall|i: int| 0 <= i < filled ==> entries@[i]@ == 0u64,
            decreases 512 - filled,
        {
            entries.push(PageTableEntry::new());
            filled = filled + 1;
        }
        let table = PageTable { entries };
        proof {
            assert(forall|i: int|
                0 <= i < 512 ==> table@[i] == #[trigger] table.entries@[i]@ && table@[i] == 0u64);
        }
        table
    }

    /// The entry at `index`.
    pub fn entry_at(&self, index: PageTableIndex) -> (r: PageTableEntry)
        ensures
            r@ == self@[index@ as int],
    {
        proof {
            use_type_invariant(self);
            use_type_invariant(&index);
        }
        let i: usize = index.as_usize();
        let entry = self.entries[i];
        proof {
            assert(self@[i as int] == self.entries@[i as int]@);
        }
        entry
    }

    /// Replaces the entry at `index`.
    pub fn set_entry(&mut self, index: PageTableIndex, entry: PageTableEntry)
        ensures
            final(self)@ == old(self)@.update(index@ as int, entry@),
    {
        proof {
            use_type_invariant(&*self);
            use_type_invariant(&index);
        }
        let i: usize = index.as_usize();
        self.entries[i] = entry;
        proof {
            assert(self@ =~= old(self)@.update(i as int, entry@));
        }
    }

    /// Resets every entry to unused.
    pub fn clear_all_entries(&mut self)
        ensures
            final(self)@.len() == 512,
            forall|i: int| 0 <= i < 512 ==> final(self)@[i] == 0u64,
    {
        proof {
            use_type_invariant(&*self);
        }
        let mut cleared: usize = 0;
        while cleared < 512
            invariant
                self.entries@.len() == 512,
                cleared <= 512,
                forall|i: int| 0 <= i < cleared ==> self.entries@[i]@ == 0u64,
            decreases 512 - cleared,
        {
            self.entries[cleared] = PageTableEntry::new();
            cleared = cleared + 1;
        }
        proof {
            assert(forall|i: int|
                0 <= i < 512 ==> self@[i] == #[trigger] self.entries@[i]@ && self@[i] == 0u64);
        }
    }
}

/// A range of pages of size `S` with an inclusive upper bound.
#[derive(Debug, Clone, Copy)]
pub struct PageRangeInclusive<S> where S: PageSize {
    /// The first page of the range.
    pub start: PageInner<S>,
    /// The last page of the range.
    pub end: PageInner<S>,
}

impl<S: PageSize> PageRangeInclusive<S> {
    /// Whether the range contains no pages.
    pub fn is_empty(&self) -> (r: bool)
        ensures
            r == (self.start.spec_start() > self.end.spec_start()),
    {
        self.start.start_address().as_u64() > self.end.start_address().as_u64()
    }

    /// Takes the first remaining page out of the range, stepping the range
    /// forward by one page.
    pub fn next(&mut self) -> (r: Option<PageInner<S>>)
        requires
            old(self).start.spec_start() <= old(self).end.spec_start() ==> old(
                self,
            ).start.spec_start() + S::spec_size() <= u64::MAX && crate::address::acceptable_virtual(
                (old(self).start.spec_start() + S::spec_size()) as u64,
            ),
        ensures
            if old(self).start.spec_start() <= old(self).end.spec_start() {
                &&& r == Some(old(self).start)
                &&& final(self).start.spec_start() == align_down_spec(
                    sign_extend((old(self).start.spec_start() + S::spec_size()) as u64),
                    S::spec_size(),
                )
                &&& final(self).end == old(self).end
            } else {
                r == None::<PageInner<S>> && *final(self) == *old(self)
            },
    {
        if self.start.start_address().as_u64() <= self.end.start_address().as_u64() {
            let page = self.start;
            proof {
                S::size_properties();
                assert(1u64 * S::spec_size() == S::spec_size()) by (nonlinear_arith);
            }
            self.start = self.start.add(1);
            Some(page)
        } else {
            None
        }
    }
}


/// Bits 12 to 51 of the translation-root register: the physical address
/// of the level-4 table.
pub const CR3_PHYSICAL_ADDRESS_MASK: u64 = 0x000f_ffff_ffff_f000;

/// The low bits of the translation-root register that may carry flags.
pub const CR3_FLAGS_MASK: u64 = 0xfff;

/// Cache-control flags of the translation-root register: bits 3 and 4.
#[derive(Debug, Clone, Copy, PartialEq, Eq, Structural)]
pub struct Cr3Flags {
    bits: u64,
}

impl View for Cr3Flags {
    type V = u64;

    closed spec fn view(&self) -> u64 {
        self.bits
    }
}

impl Cr3Flags {
    /// Use a write-through cache policy for the level-4 table (bit 3).
    pub fn page_level_writethrough() -> (r: Self)
        ensures
            r@ == 0x8u64,
    {
        Cr3Flags { bits: 0x8 }
    }

    /// Disable caching for the level-4 table (bit 4).
    pub fn page_level_cache_disable() -> (r: Self)
        ensures
            r@ == 0x10u64,
    {
        Cr3Flags { bits: 0x10 }
    }

    /// Keeps the two cache-control bits of `bits` and drops the rest.
    pub fn from_bits_truncate(bits: u64) -> (r: Self)
        ensures
            r@ == bits & 0x18,
    {
        Cr3Flags { bits: bits & 0x18 }
    }

    /// The raw flag bits.
    pub fn bits(&self) -> (r: u64)
        ensures
            r == self@,
    {
        self.bits
    }
}

/// Splits a raw translation-root register value into the level-4 table
/// frame (bits 12 to 51) and the cache-control flags (bits 3 and 4).
pub fn u64_to_page_table_frame_and_cr3_flags(value: u64) -> (r: (PageFrame, Cr3Flags))
    ensures
        r.0 is Normal,
        r.0.spec_start() == value & CR3_PHYSICAL_ADDRESS_MASK,
        r.1@ == value & 0x18,
{
    proof {
        assert(value & 0x000f_ffff_ffff_f000 < 0x10_0000_0000_0000 && (value
            & 0x000f_ffff_ffff_f000) % 0x1000 == 0 && (value & 0xfff) & 0x18 == value & 0x18)
            by (bit_vector);
    }
    let physical_address = PhysicalAddress::new(value & CR3_PHYSICAL_ADDRESS_MASK);
    let flags = Cr3Flags::from_bits_truncate(value & CR3_FLAGS_MASK);
    let page_table_frame = PageFrame::top_level_containing_address(physical_address);
    (page_table_frame, flags)
}

} // verus!
