//! Physical and virtual address types.
//!
//! A [`VirtualAddress`] is always canonical: bits 47 to 63 are copies of
//! bit 47 (sign extension). A [`PhysicalAddress`] never carries
//! data in bits 52 to 63.

use vstd::prelude::*;

use crate::paging::{PageOffset, PageOffsetInner, PageTableIndex, PageTableLevel};

verus! {

/// First virtual address whose bit 47 is set: `2^47`.
pub const LOWER_HALF_END: u64 = 0x8000_0000_0000;

/// First address of the canonical upper half: sign extension of `2^47`.
pub const UPPER_HALF_START: u64 = 0xffff_8000_0000_0000;

/// First physical address that carries data in bits 52 to 63: `2^52`.
pub const PHYSICAL_ADDRESS_LIMIT: u64 = 0x10_0000_0000_0000;

/// A virtual address is canonical when bits 47 to 63 are a sign extension of
/// bit 47: the address lies below `2^47` or at or above `0xffff_8000_...`.
pub open spec fn canonical(addr: u64) -> bool {
    addr < LOWER_HALF_END || addr >= UPPER_HALF_START
}

/// Sign extension of bit 47 over bits 48 to 63, discarding the previous
/// contents of those bits. The result is always canonical.
pub open spec fn sign_extend(addr: u64) -> u64 {
    if (addr / LOWER_HALF_END) % 2 == 1 {
        (addr % LOWER_HALF_END + UPPER_HALF_START) as u64
    } else {
        (addr % LOWER_HALF_END) as u64
    }
}

/// The inputs that the virtual-address constructors accept: bits 47 to 63
/// are all zero, all one, or exactly bit 47 is set (which only lacks the
/// sign extension).
pub open spec fn acceptable_virtual(addr: u64) -> bool {
    addr / LOWER_HALF_END == 0 || addr / LOWER_HALF_END == 1 || addr
        / LOWER_HALF_END == 0x1ffff
}

/// A physical address is valid when bits 52 to 63 are all zero.
pub open spec fn valid_physical(addr: u64) -> bool {
    addr < PHYSICAL_ADDRESS_LIMIT
}

/// `a` is a power of two. The bit form `a & (a - 1) == 0` is equivalent and
/// is what the alignment arithmetic below is proved against.
pub open spec fn is_power_of_two(a: u64) -> bool {
    a != 0 && a & (a - 1) as u64 == 0
}

/// `addr` rounded down to the next multiple of `align`.
pub open spec fn align_down_spec(addr: u64, align: u64) -> u64 {
    (addr - addr % align) as u64
}

/// Index into the level-1 page table: bits 12 to 20.
pub open spec fn l1_index_of(addr: u64) -> u64 {
    (addr / 0x1000) % 512
}

/// Index into the level-2 page table: bits 21 to 29.
pub open spec fn l2_index_of(addr: u64) -> u64 {
    (addr / 0x20_0000) % 512
}

/// Index into the level-3 page table: bits 30 to 38.
pub open spec fn l3_index_of(addr: u64) -> u64 {
    (addr / 0x4000_0000) % 512
}

/// Index into the level-4 page table: bits 39 to 47.
pub open spec fn l4_index_of(addr: u64) -> u64 {
    (addr / 0x80_0000_0000) % 512
}

/// Relies on bit_field's `BitField::get_bits` on `u64`: for a range
/// `low..64` it shifts away the bits below `low` and returns `value >> low`.
#[verifier::external_body]
fn high_bits_from(value: u64, low: usize) -> (r: u64)
    requires
        low < 64,
    ensures
        r == value >> (low as u64),
{
    bit_field::BitField::get_bits(&value, low..64)
}

/// A canonical 64-bit virtual memory address.
///
/// On this architecture only the low 48 bits of a virtual address carry
/// data; bits 47 to 63 must be copies of bit 47. Every live value of this
/// type satisfies that invariant.
#[derive(Clone, Copy, PartialEq, Eq, Structural, Debug)]
pub struct VirtualAddress(u64);

/// A `u64` was rejected as a virtual address: bits 48 to 63 carried data
/// that is no sign extension of bit 47. Holds the offending raw bits.
#[derive(Debug, Clone, Copy, PartialEq, Eq, Structural)]
pub struct InvalidVirtualAddress(pub u64);

impl VirtualAddress {
    #[verifier::type_invariant]
    pub(crate) open spec fn well_formed(self) -> bool {
        canonical(self@)
    }
}

impl View for VirtualAddress {
    type V = u64;

    closed spec fn view(&self) -> u64 {
        self.0
    }
}

impl VirtualAddress {
    /// Creates a new canonical virtual address.
    ///
    /// The input must already be canonical or have all of bits 48 to 63
    /// zero with bit 47 set (the sign extension is then filled in); any
    /// other input is an unrecoverable logic error, so it is ruled out by
    /// the precondition rather than aborting.
    pub fn new(addr: u64) -> (r: Self)
        requires
            acceptable_virtual(addr),
        ensures
            r@ == sign_extend(addr),
    {
        match Self::try_new(addr) {
            Ok(address) => address,
            Err(_) => {
                proof {
                    assert(false);
                }
                Self::zero()
            },
        }
    }

    /// Tries to create a new canonical virtual address.
    ///
    /// Succeeds if bits 47 to 63 are all zero, all one (both already
    /// canonical), or exactly bit 47 (sign extension is then performed).
    /// Every other input is returned inside the error.
    pub fn try_new(addr: u64) -> (r: Result<Self, InvalidVirtualAddress>)
        ensures
            match r {
                Ok(v) => acceptable_virtual(addr) && v@ == sign_extend(addr),
                Err(e) => !acceptable_virtual(addr) && e == (InvalidVirtualAddress(addr)),
            },
    {
        proof {
            assert(addr >> 47 == addr / LOWER_HALF_END && addr / LOWER_HALF_END <= 0x1ffff)
                by (bit_vector);
        }
        match high_bits_from(addr, 47) {
            0 | 0x1ffff => {
                proof {
                    assert(addr >> 47 == 0 || addr >> 47 == 0x1ffff ==> canonical(addr)
                        && sign_extend(addr) == addr) by (bit_vector);
                }
                Ok(VirtualAddress(addr))
            },
            1 => Ok(Self::new_truncate(addr)),
            _ => Err(InvalidVirtualAddress(addr)),
        }
    }

    /// Creates a new canonical virtual address, throwing out bits 48 to 63.
    ///
    /// Bits 48 to 63 are overwritten with copies of bit 47, whatever they
    /// held before.
    pub fn new_truncate(addr: u64) -> (r: Self)
        ensures
            r@ == sign_extend(addr),
    {
        // An arithmetic shift right on the signed representation repeats
        // the leftmost remaining bit, which is bit 47.
        let extended: u64 = ((addr << 16) as i64 >> 16) as u64;
        proof {
            assert((((addr << 16) as i64) >> 16) as u64 == sign_extend(addr)) by (bit_vector);
            assert(canonical(sign_extend(addr))) by (bit_vector);
        }
        VirtualAddress(extended)
    }

    /// The zero address.
    pub fn zero() -> (r: Self)
        ensures
            r@ == 0,
    {
        VirtualAddress(0)
    }

    /// Wraps an already canonical raw value without inspecting it.
    pub fn from_raw(address: u64) -> (r: Self)
        requires
            canonical(address),
        ensures
            r@ == address,
    {
        VirtualAddress(address)
    }

    /// The raw 64-bit value.
    pub fn as_u64(&self) -> (r: u64)
        ensures
            r == self@,
    {
        self.0
    }

    /// The address `rhs` bytes above this one.
    ///
    /// The sum must stay inside the half it started in, as the primary
    /// constructor would otherwise reject it.
    pub fn add(self, rhs: u64) -> (r: Self)
        requires
            self@ + rhs <= u64::MAX,
            acceptable_virtual((self@ + rhs) as u64),
        ensures
            r@ == sign_extend((self@ + rhs) as u64),
    {
        VirtualAddress::new(self.0 + rhs)
    }

    /// The offset of this address into the page that maps it, for the
    /// table level at which the mapping was found.
    ///
    /// A mapping found at level 1 is a normal page with a 12-bit offset,
    /// at level 2 a huge page with a 21-bit offset, at level 3 a giant
    /// page with a 30-bit offset. Level 4 entries never map pages, so that
    /// level is ruled out.
    pub fn page_offset(self, level: PageTableLevel) -> (r: PageOffset)
        requires
            level != PageTableLevel::Level4,
        ensures
            level == PageTableLevel::Level1 ==> r is Normal && r.spec_value() == self@ % 0x1000,
            level == PageTableLevel::Level2 ==> r is Huge && r.spec_value() == self@ % 0x20_0000,
            level == PageTableLevel::Level3 ==> r is Giant && r.spec_value() == self@
                % 0x4000_0000,
    {
        proof {
            let a = self.0;
            assert((a as u32) as u64 % 0x1000 == a % 0x1000 && (a as u32) as u64 % 0x20_0000 == a
                % 0x20_0000 && (a as u32) as u64 % 0x4000_0000 == a % 0x4000_0000)
                by (bit_vector);
        }
        match level {
            PageTableLevel::Level1 => PageOffset::Normal(
                PageOffsetInner::new_truncate(self.0 as u32),
            ),
            PageTableLevel::Level2 => PageOffset::Huge(
                PageOffsetInner::new_truncate(self.0 as u32),
            ),
            PageTableLevel::Level3 => PageOffset::Giant(
                PageOffsetInner::new_truncate(self.0 as u32),
            ),
            PageTableLevel::Level4 => {
                proof {
                    assert(false);
                }
                PageOffset::Normal(PageOffsetInner::new_truncate(0))
            },
        }
    }

    /// Index of this address in the level-1 page table: bits 12 to 20.
    pub fn p1_index(self) -> (r: PageTableIndex)
        ensures
            r@ as u64 == l1_index_of(self@),
    {
        proof {
            let a = self.0;
            assert(((a >> 12) as u16) % 512 == ((a / 0x1000) % 512) as u16) by (bit_vector);
        }
        PageTableIndex::new_truncate((self.0 >> 12) as u16)
    }

    /// Index of this address in the level-2 page table: bits 21 to 29.
    pub fn p2_index(self) -> (r: PageTableIndex)
        ensures
            r@ as u64 == l2_index_of(self@),
    {
        proof {
            let a = self.0;
            assert(((a >> 12 >> 9) as u16) % 512 == ((a / 0x20_0000) % 512) as u16)
                by (bit_vector);
        }
        PageTableIndex::new_truncate((self.0 >> 12 >> 9) as u16)
    }

    /// Index of this address in the level-3 page table: bits 30 to 38.
    pub fn p3_index(self) -> (r: PageTableIndex)
        ensures
            r@ as u64 == l3_index_of(self@),
    {
        proof {
            let a = self.0;
            assert(((a >> 12 >> 9 >> 9) as u16) % 512 == ((a / 0x4000_0000) % 512) as u16)
                by (bit_vector);
        }
        PageTableIndex::new_truncate((self.0 >> 12 >> 9 >> 9) as u16)
    }

    /// Index of this address in the level-4 page table: bits 39 to 47.
    pub fn p4_index(self) -> (r: PageTableIndex)
        ensures
            r@ as u64 == l4_index_of(self@),
    {
        proof {
            let a = self.0;
            assert(((a >> 12 >> 9 >> 9 >> 9) as u16) % 512 == ((a / 0x80_0000_0000) % 512) as u16)
                by (bit_vector);
        }
        PageTableIndex::new_truncate((self.0 >> 12 >> 9 >> 9 >> 9) as u16)
    }
}

/// A 64-bit physical memory address; bits 52 to 63 are always zero.
#[derive(Clone, Copy, PartialEq, Eq, Structural, Debug)]
pub struct PhysicalAddress(u64);

/// A `u64` was rejected as a physical address: bits 52 to 63 were not all
/// zero. Holds the offending raw bits.
#[derive(Debug, Clone, Copy, PartialEq, Eq, Structural)]
pub struct InvalidPhysicalAddress(pub u64);

impl PhysicalAddress {
    #[verifier::type_invariant]
    pub(crate) open spec fn well_formed(self) -> bool {
        valid_physical(self@)
    }
}

impl View for PhysicalAddress {
    type V = u64;

    closed spec fn view(&self) -> u64 {
        self.0
    }
}

impl PhysicalAddress {
    /// Creates a new physical address.
    ///
    /// Data in bits 52 to 63 is an unrecoverable logic error, ruled out by
    /// the precondition rather than aborting.
    pub fn new(addr: u64) -> (r: Self)
        requires
            valid_physical(addr),
        ensures
            r@ == addr,
    {
        match Self::try_new(addr) {
            Ok(address) => address,
            Err(_) => {
                proof {
                    assert(false);
                }
                PhysicalAddress(0)
            },
        }
    }

    /// Tries to create a new physical address, rejecting any input with
    /// data in bits 52 to 63.
    pub fn try_new(addr: u64) -> (r: Result<Self, InvalidPhysicalAddress>)
        ensures
            match r {
                Ok(v) => valid_physical(addr) && v@ == addr,
                Err(e) => !valid_physical(addr) && e == (InvalidPhysicalAddress(addr)),
            },
    {
        proof {
            assert(addr >> 52 == addr / PHYSICAL_ADDRESS_LIMIT) by (bit_vector);
        }
        match high_bits_from(addr, 52) {
            0 => Ok(PhysicalAddress(addr)),
            _ => Err(InvalidPhysicalAddress(addr)),
        }
    }

    /// Wraps an already valid raw value without inspecting it.
    pub fn from_raw(address: u64) -> (r: Self)
        requires
            valid_physical(address),
        ensures
            r@ == address,
    {
        PhysicalAddress(address)
    }

    /// Rounds this address down to the nearest multiple of `alignment`,
    /// which must be a power of two.
    pub fn align_down(&self, alignment: u64) -> (r: Self)
        requires
            is_power_of_two(alignment),
        ensures
            r@ == align_down_spec(self@, alignment),
    {
        proof {
            use_type_invariant(self);
            assert(self.0 % alignment <= self.0) by (nonlinear_arith)
                requires
                    alignment > 0,
            ;
        }
        PhysicalAddress::new(self.0 - self.0 % alignment)
    }

    /// The raw 64-bit value.
    pub fn as_u64(&self) -> (r: u64)
        ensures
            r == self@,
    {
        self.0
    }

    /// The address `rhs` bytes above this one. The sum must still be a
    /// valid physical address.
    pub fn add(self, rhs: u64) -> (r: Self)
        requires
            self@ + rhs < PHYSICAL_ADDRESS_LIMIT,
        ensures
            r@ == self@ + rhs,
    {
        proof {
            use_type_invariant(&self);
        }
        PhysicalAddress::new(self.0 + rhs)
    }
}

/// Rounding down to a power-of-two alignment never increases the value,
/// lands on a multiple of the alignment, and is idempotent.
pub proof fn lemma_align_down_properties(value: u64, alignment: u64)
    requires
        is_power_of_two(alignment),
    ensures
        align_down_spec(value, alignment) <= value,
        align_down_spec(value, alignment) % alignment == 0,
        align_down_spec(align_down_spec(value, alignment), alignment) == align_down_spec(
            value,
            alignment,
        ),
{
    assert(value % alignment <= value && ((value - value % alignment) as u64) % alignment == 0)
        by (nonlinear_arith)
        requires
            alignment > 0,
    ;
}

/// Sign extension always yields a canonical address, is idempotent, and its
/// result is accepted unchanged by the virtual-address constructors.
pub proof fn lemma_sign_extend_canonical(addr: u64)
    ensures
        canonical(sign_extend(addr)),
        sign_extend(sign_extend(addr)) == sign_extend(addr),
        acceptable_virtual(sign_extend(addr)),
{
    assert(canonical(sign_extend(addr)) && sign_extend(sign_extend(addr)) == sign_extend(addr)
        && acceptable_virtual(sign_extend(addr))) by (bit_vector);
}

/// The four 9-bit page-table indices and the 12-bit page offset recombine,
/// with their architectural bit positions, to the low 48 bits of the
/// address; for a canonical address, sign extension of those 48 bits gives
/// back the whole address.
pub proof fn lemma_index_recombination(addr: u64)
    ensures
        l4_index_of(addr) * 0x80_0000_0000 + l3_index_of(addr) * 0x4000_0000 + l2_index_of(addr)
            * 0x20_0000 + l1_index_of(addr) * 0x1000 + addr % 0x1000 == addr
            % 0x1_0000_0000_0000,
        canonical(addr) ==> sign_extend((addr % 0x1_0000_0000_0000) as u64) == addr,
{
    assert(((addr / 0x80_0000_0000) % 512) * 0x80_0000_0000 + ((addr / 0x4000_0000) % 512)
        * 0x4000_0000 + ((addr / 0x20_0000) % 512) * 0x20_0000 + ((addr / 0x1000) % 512) * 0x1000
        + addr % 0x1000 == addr % 0x1_0000_0000_0000) by (bit_vector);
    assert((addr < LOWER_HALF_END || addr >= UPPER_HALF_START) ==> sign_extend(
        (addr % 0x1_0000_0000_0000) as u64,
    ) == addr) by (bit_vector);
}

} // verus!
