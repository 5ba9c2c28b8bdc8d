//! Heap allocation over the mapped heap range.
//!
//! The free-list allocator keeps the free space of the heap as a list of
//! regions, newest first. Allocation walks the list and takes the first
//! region that fits; freeing pushes the freed region back on the front.
//! Adjacent free regions are never merged: that is a known, deliberate
//! limitation of this design, so repeated allocation can fragment the
//! heap even when the total free space would suffice.

use vstd::prelude::*;

use crate::address::{is_power_of_two, VirtualAddress};
use crate::frame_allocator::frame_seq;
use crate::mapper::{
    no_huge_anywhere, normal_terminal_word, terminal_word, walk, MappingError,
    OffsetMemoryMapper, TableView,
};
use crate::paging::{entry_address, Page, PageInner, PageTableEntryFlags, Size4KiB};

verus! {

/// Easily recognizable heap starting address.
pub const HEAP_START: u64 = 0x4444_4444_0000;

/// Heap size: 100 KiB.
pub const HEAP_SIZE: u64 = 100 * 1024;

/// Bytes a free region must be able to hold: the in-place free-list node
/// (a size word and a next pointer on the target machine).
pub const NODE_SIZE: u64 = 16;

/// Alignment a free region must have for its node.
pub const NODE_ALIGN: u64 = 8;

/// Machine-limit bounds under which all the allocator arithmetic stays in
/// range: region ends below `2^63`, alignments at most `2^61`, sizes at
/// most `2^62`.
pub const REGION_END_LIMIT: u64 = 0x8000_0000_0000_0000;

/// Largest alignment the allocator accepts.
pub const MAX_ALIGN: u64 = 0x1000_0000_0000_0000;

/// Largest request size the allocator accepts.
pub const MAX_REQUEST: u64 = 0x2000_0000_0000_0000;

/// `addr` rounded up to the next multiple of `align`.
pub open spec fn align_up_spec(addr: int, align: int) -> int {
    if addr % align == 0 {
        addr
    } else {
        addr - addr % align + align
    }
}

/// Align the given address upwards to `align`.
pub fn align_up(address: u64, align: u64) -> (r: u64)
    requires
        align >= 1,
        address + align <= u64::MAX,
    ensures
        r == align_up_spec(address as int, align as int),
{
    let remainder = address % align;
    proof {
        assert(address % align <= address) by (nonlinear_arith)
            requires
                align >= 1,
        ;
    }
    if remainder == 0 {
        address
    } else {
        address - remainder + align
    }
}

/// One free region of the heap: `size` free bytes starting at `addr`.
#[derive(Debug, Clone, Copy, PartialEq, Eq, Structural)]
pub struct Region {
    /// First free address of the region.
    pub addr: u64,
    /// Length of the region in bytes.
    pub size: u64,
}

/// The regions the allocator works with: aligned and large enough to hold
/// a free-list node, with their ends inside the machine limit.
pub open spec fn region_well_formed(r: Region) -> bool {
    r.addr % NODE_ALIGN == 0 && r.size >= NODE_SIZE && r.addr + r.size <= REGION_END_LIMIT
}

/// All regions of a free list are well formed.
pub open spec fn regions_well_formed(rs: Seq<Region>) -> bool {
    forall|k: int| 0 <= k < rs.len() ==> region_well_formed(#[trigger] rs[k])
}

/// Whether a region can serve an allocation of `size` bytes at alignment
/// `align`, and at which address: the aligned start must leave the
/// allocation inside the region, and the leftover tail must be zero or
/// large enough to hold a free-list node — a smaller sliver could never
/// be relinked and would corrupt the list.
pub open spec fn region_fit(r: Region, size: int, align: int) -> Option<int> {
    let start = align_up_spec(r.addr as int, align);
    let end = start + size;
    if end > r.addr + r.size {
        None
    } else if r.addr + r.size - end > 0 && r.addr + r.size - end < NODE_SIZE {
        None
    } else {
        Some(start)
    }
}

/// The first region of the list that fits, with its index and the aligned
/// allocation start inside it.
pub open spec fn find_first_fit(rs: Seq<Region>, size: int, align: int) -> Option<(int, int)>
    decreases rs.len(),
{
    if rs.len() == 0 {
        None
    } else {
        match region_fit(rs[0], size, align) {
            Some(start) => Some((0int, start)),
            None => match find_first_fit(rs.drop_first(), size, align) {
                Some(p) => Some((p.0 + 1, p.1)),
                None => None,
            },
        }
    }
}

/// The request actually served for `(size, align)`: the alignment is
/// raised to the node alignment, the size padded to a multiple of the
/// alignment and to at least a node, so that whatever is later freed can
/// always hold its free-list node.
pub open spec fn padded_size(size: int, align: int) -> int {
    let a = if align < NODE_ALIGN {
        NODE_ALIGN as int
    } else {
        align
    };
    let s = align_up_spec(size, a);
    if s < NODE_SIZE {
        NODE_SIZE as int
    } else {
        s
    }
}

/// The alignment actually served for `align`.
pub open spec fn padded_align(align: int) -> int {
    if align < NODE_ALIGN {
        NODE_ALIGN as int
    } else {
        align
    }
}

/// If no region of the list fits, the search finds nothing.
proof fn lemma_find_none(rs: Seq<Region>, size: int, align: int)
    requires
        forall|k: int| 0 <= k < rs.len() ==> region_fit(#[trigger] rs[k], size, align) is None,
    ensures
        find_first_fit(rs, size, align) is None,
    decreases rs.len(),
{
    if rs.len() > 0 {
        assert(forall|k: int|
            0 <= k < rs.drop_first().len() ==> rs.drop_first()[k] == rs[k + 1]);
        lemma_find_none(rs.drop_first(), size, align);
    }
}

/// If the regions before `j` do not fit and region `j` does, the search
/// finds exactly region `j`.
proof fn lemma_find_at(rs: Seq<Region>, size: int, align: int, j: int, start: int)
    requires
        0 <= j < rs.len(),
        forall|k: int| 0 <= k < j ==> region_fit(#[trigger] rs[k], size, align) is None,
        region_fit(rs[j], size, align) == Some(start),
    ensures
        find_first_fit(rs, size, align) == Some((j, start)),
    decreases j,
{
    if j == 0 {
    } else {
        assert(forall|k: int|
            0 <= k < rs.drop_first().len() ==> rs.drop_first()[k] == rs[k + 1]);
        lemma_find_at(rs.drop_first(), size, align, j - 1, start);
    }
}

/// What a successful search says of its result.
proof fn lemma_find_char(rs: Seq<Region>, size: int, align: int)
    requires
        find_first_fit(rs, size, align) is Some,
    ensures
        ({
            let (i, start) = find_first_fit(rs, size, align)->0;
            0 <= i < rs.len() && region_fit(rs[i], size, align) == Some(start)
        }),
    decreases rs.len(),
{
    if rs.len() > 0 {
        if region_fit(rs[0], size, align) is Some {
        } else {
            lemma_find_char(rs.drop_first(), size, align);
        }
    }
}

/// Rounding up lands on a multiple of the alignment, at or above the
/// value, and no further than one alignment away.
proof fn lemma_align_up_properties(addr: int, align: int)
    requires
        align >= 1,
        addr >= 0,
    ensures
        align_up_spec(addr, align) % align == 0,
        addr <= align_up_spec(addr, align) < addr + align,
{
    assert(addr % align >= 0 && addr % align < align && (addr % align != 0 ==> (addr - addr
        % align + align) % align == 0)) by (nonlinear_arith)
        requires
            align >= 1 && addr >= 0,
    ;
}

/// Freeing the last allocation and asking for the same padded size and
/// alignment again finds the freed region immediately, at the same
/// address: the freed region sits at the head of the list and fits
/// exactly, whatever the rest of the list holds. This is the pure LIFO
/// reuse of the free list.
pub proof fn lemma_lifo_reuse(
    rs: Seq<Region>,
    rest: Seq<Region>,
    size: int,
    align: int,
    i: int,
    start: int,
)
    requires
        1 <= align,
        NODE_SIZE <= size,
        regions_well_formed(rs),
        find_first_fit(rs, size, align) == Some((i, start)),
        start + size <= u64::MAX,
    ensures
        find_first_fit(
            seq![Region { addr: start as u64, size: size as u64 }] + rest,
            size,
            align,
        ) == Some((0int, start)),
{
    lemma_find_char(rs, size, align);
    lemma_align_up_properties(rs[i].addr as int, align);
    assert(start % align == 0);
    let freed = Region { addr: start as u64, size: size as u64 };
    let l = seq![freed] + rest;
    assert(l[0] == freed);
    assert(align_up_spec(freed.addr as int, align) == freed.addr) by {
        assert(start >= 0);
    }
    assert(region_fit(freed, size, align) == Some(start));
    assert(find_first_fit(l, size, align) == Some((0int, start)));
}

/// Keeps track of the free space of the heap in a single list, newest
/// region first.
///
/// The view of the allocator is the sequence of free regions, in list
/// order. Allocation takes the first region that fits and pushes any
/// leftover tail back on the front; freeing pushes the freed region on
/// the front. Free regions are never merged.
pub struct LinkedListAllocator {
    regions: Vec<Region>,
}

impl View for LinkedListAllocator {
    type V = Seq<Region>;

    closed spec fn view(&self) -> Seq<Region> {
        self.regions@
    }
}

impl LinkedListAllocator {
    /// Creates an allocator with no free space at all.
    pub fn new() -> (r: Self)
        ensures
            r@ == Seq::<Region>::empty(),
    {
        let allocator = LinkedListAllocator { regions: Vec::new() };
        proof {
            assert(allocator@ =~= Seq::<Region>::empty());
        }
        allocator
    }

    /// Initialize the allocator with the heap bounds: seeds the free list
    /// with one region spanning the whole heap. The heap range must be
    /// unused and must have been mapped beforehand.
    pub fn init(&mut self, heap_start: u64, heap_size: u64)
        requires
            heap_start % NODE_ALIGN == 0,
            heap_size >= NODE_SIZE,
            heap_start + heap_size <= REGION_END_LIMIT,
        ensures
            final(self)@ == seq![Region { addr: heap_start, size: heap_size }] + old(self)@,
    {
        self.add_free_region(heap_start, heap_size);
    }

    /// Pushes the region `[address, address + size)` on the front of the
    /// free list. It must be able to hold a free-list node.
    fn add_free_region(&mut self, address: u64, size: u64)
        requires
            address % NODE_ALIGN == 0,
            size >= NODE_SIZE,
            address + size <= REGION_END_LIMIT,
        ensures
            final(self)@ == seq![Region { addr: address, size: size }] + old(self)@,
    {
        self.regions.insert(0, Region { addr: address, size: size });
        proof {
            assert(self@ =~= seq![Region { addr: address, size: size }] + old(self)@);
        }
    }

    /// Finds the first region that can serve `size` bytes at `align`,
    /// removes it from the list, and returns it with the aligned
    /// allocation start inside it.
    fn find_region(&mut self, size: u64, align: u64) -> (r: Option<(Region, u64)>)
        requires
            regions_well_formed(old(self)@),
            1 <= align <= MAX_ALIGN,
            size as int <= MAX_REQUEST + MAX_ALIGN + NODE_SIZE,
        ensures
            match find_first_fit(old(self)@, size as int, align as int) {
                Some((i, start)) => r == Some((old(self)@[i], start as u64)) && final(self)@
                    == old(self)@.remove(i),
                None => r == None::<(Region, u64)> && final(self)@ == old(self)@,
            },
    {
        let mut j: usize = 0;
        while j < self.regions.len()
            invariant
                self@ == old(self)@,
                regions_well_formed(self@),
                1 <= align <= MAX_ALIGN,
                size as int <= MAX_REQUEST + MAX_ALIGN + NODE_SIZE,
                0 <= j <= self@.len(),
                forall|k: int|
                    0 <= k < j ==> region_fit(#[trigger] self@[k], size as int, align as int)
                        is None,
            decreases self@.len() - j,
        {
            let region = self.regions[j];
            match Self::allocate_from_region(region, size, align) {
                Ok(allocation_start) => {
                    proof {
                        lemma_find_at(
                            self@,
                            size as int,
                            align as int,
                            j as int,
                            allocation_start as int,
                        );
                    }
                    let found = self.regions.remove(j);
                    return Some((found, allocation_start));
                },
                Err(_) => {
                    j = j + 1;
                },
            }
        }
        proof {
            lemma_find_none(self@, size as int, align as int);
        }
        None
    }

    /// Try to use the given region for an allocation with given size and
    /// alignment; returns the allocation start address on success.
    fn allocate_from_region(region: Region, size: u64, align: u64) -> (r: Result<u64, ()>)
        requires
            region_well_formed(region),
            1 <= align <= MAX_ALIGN,
            size as int <= MAX_REQUEST + MAX_ALIGN + NODE_SIZE,
        ensures
            match r {
                Ok(start) => region_fit(region, size as int, align as int) == Some(start as int),
                Err(()) => region_fit(region, size as int, align as int) is None,
            },
    {
        proof {
            lemma_align_up_properties(region.addr as int, align as int);
        }
        let alloc_start = align_up(region.addr, align);
        let alloc_end = alloc_start + size;

        if alloc_end > region.addr + region.size {
            // region too small
            return Err(());
        }
        let excess_size = (region.addr + region.size) - alloc_end;
        if excess_size > 0 && excess_size < NODE_SIZE {
            // the rest of the region is too small to hold a free-list
            // node, which the split would require
            return Err(());
        }
        Ok(alloc_start)
    }

    /// Allocates `size` bytes at alignment `align` (a power of two), or
    /// returns `None` when no single free region can serve the request —
    /// the allocation failure signal.
    ///
    /// The request is padded (see [`padded_size`]); the first fitting
    /// region leaves the list and its leftover tail, if any, returns to
    /// the front as a new free region.
    pub fn allocate(&mut self, size: u64, align: u64) -> (r: Option<u64>)
        requires
            regions_well_formed(old(self)@),
            is_power_of_two(align as u64),
            align <= MAX_ALIGN,
            size <= MAX_REQUEST,
        ensures
            regions_well_formed(final(self)@),
            ({
                let s2 = padded_size(size as int, align as int);
                let a2 = padded_align(align as int);
                match find_first_fit(old(self)@, s2, a2) {
                    Some((i, start)) => r == Some(start as u64) && ({
                        let excess = old(self)@[i].addr + old(self)@[i].size - (start + s2);
                        if excess > 0 {
                            final(self)@ == seq![
                                Region {
                                    addr: (start + s2) as u64,
                                    size: excess as u64,
                                },
                            ] + old(self)@.remove(i)
                        } else {
                            final(self)@ == old(self)@.remove(i)
                        }
                    }),
                    None => r == None::<u64> && final(self)@ == old(self)@,
                }
            }),
    {
        let (size2, align2) = Self::size_align(size, align);
        proof {
            lemma_padded_bounds(size as int, align as int);
        }
        match self.find_region(size2, align2) {
            Some((region, alloc_start)) => {
                proof {
                    lemma_find_char(old(self)@, size2 as int, align2 as int);
                    lemma_align_up_properties(region.addr as int, align2 as int);
                    lemma_power_of_two_align(align as int);
                }
                let alloc_end = alloc_start + size2;
                let excess_size = (region.addr + region.size) - alloc_end;
                if excess_size > 0 {
                    proof {
                        lemma_multiple_of_multiple(
                            alloc_start as int,
                            align2 as int,
                            NODE_ALIGN as int,
                        );
                        assert(alloc_end as int % (NODE_ALIGN as int) == 0) by (nonlinear_arith)
                            requires
                                alloc_end == alloc_start + size2,
                                alloc_start as int % (NODE_ALIGN as int) == 0,
                                size2 as int % (NODE_ALIGN as int) == 0,
                                NODE_ALIGN == 8u64,
                        ;
                    }
                    self.add_free_region(alloc_end, excess_size);
                }
                proof {
                    assert(regions_well_formed(self@));
                }
                Some(alloc_start)
            },
            None => None,
        }
    }

    /// Returns the region `[ptr, ptr + padded size)` to the front of the
    /// free list. The pointer and layout must be the ones the matching
    /// `allocate` call served; in particular the same padded size is
    /// recomputed, so exactly the allocated span is freed. Adjacent free
    /// regions are not merged.
    pub fn deallocate(&mut self, ptr: u64, size: u64, align: u64)
        requires
            ptr % NODE_ALIGN == 0,
            is_power_of_two(align as u64),
            align <= MAX_ALIGN,
            size <= MAX_REQUEST,
            ptr + padded_size(size as int, align as int) <= REGION_END_LIMIT,
        ensures
            final(self)@ == seq![
                Region { addr: ptr, size: padded_size(size as int, align as int) as u64 },
            ] + old(self)@,
    {
        let (size2, _) = Self::size_align(size, align);
        proof {
            lemma_padded_bounds(size as int, align as int);
        }
        self.add_free_region(ptr, size2);
    }

    /// Adjusts a requested layout so that the allocated span can later
    /// hold a free-list node: alignment raised to the node alignment, the
    /// size padded to a multiple of it and to at least a node. Returns
    /// the adjusted `(size, align)` pair.
    pub fn size_align(size: u64, align: u64) -> (r: (u64, u64))
        requires
            1 <= align <= MAX_ALIGN,
            size <= MAX_REQUEST,
        ensures
            r.0 == padded_size(size as int, align as int),
            r.1 == padded_align(align as int),
    {
        let a = if align < NODE_ALIGN {
            NODE_ALIGN
        } else {
            align
        };
        proof {
            lemma_align_up_properties(size as int, a as int);
        }
        let s = align_up(size, a);
        let s2 = if s < NODE_SIZE {
            NODE_SIZE
        } else {
            s
        };
        (s2, a)
    }
}


/// The simplest allocator: bumps a cursor through the heap and only
/// reuses memory once every allocation has been freed.
pub struct BumpAllocator {
    heap_start: u64,
    heap_end: u64,
    next: u64,
    allocations: u64,
}

impl BumpAllocator {
    /// First address of the heap range.
    pub closed spec fn spec_heap_start(self) -> u64 {
        self.heap_start
    }

    /// First address past the heap range.
    pub closed spec fn spec_heap_end(self) -> u64 {
        self.heap_end
    }

    /// Boundary between used and unused memory.
    pub closed spec fn spec_next(self) -> u64 {
        self.next
    }

    /// Number of live allocations.
    pub closed spec fn spec_allocations(self) -> u64 {
        self.allocations
    }

    /// The bounds under which the bump arithmetic stays in range.
    pub open spec fn wf(self) -> bool {
        self.spec_heap_end() <= REGION_END_LIMIT && self.spec_next() as int <= REGION_END_LIMIT
            + MAX_ALIGN + MAX_REQUEST
    }

    /// Creates an allocator over no memory; `init` supplies the range.
    pub fn new() -> (r: Self)
        ensures
            r.spec_heap_start() == 0,
            r.spec_heap_end() == 0,
            r.spec_next() == 0,
            r.spec_allocations() == 0,
            r.wf(),
    {
        BumpAllocator { heap_start: 0, heap_end: 0, next: 0, allocations: 0 }
    }

    /// Points the allocator at the heap range, with the cursor at its
    /// start. The range must be unused and already mapped.
    pub fn init(&mut self, heap_start: u64, heap_size: u64)
        requires
            heap_start + heap_size <= REGION_END_LIMIT,
        ensures
            final(self).spec_heap_start() == heap_start,
            final(self).spec_heap_end() == heap_start + heap_size,
            final(self).spec_next() == heap_start,
            final(self).spec_allocations() == old(self).spec_allocations(),
            final(self).wf(),
    {
        self.heap_start = heap_start;
        self.heap_end = heap_start + heap_size;
        self.next = heap_start;
    }

    /// Bumps the cursor by an aligned allocation and returns its start,
    /// or `None` when the cursor has already run past the heap end.
    pub fn allocate(&mut self, size: u64, align: u64) -> (r: Option<u64>)
        requires
            old(self).wf(),
            1 <= align <= MAX_ALIGN,
            size <= MAX_REQUEST,
            old(self).spec_allocations() < u64::MAX,
        ensures
            final(self).spec_heap_start() == old(self).spec_heap_start(),
            final(self).spec_heap_end() == old(self).spec_heap_end(),
            final(self).wf(),
            match r {
                Some(start) => old(self).spec_next() <= old(self).spec_heap_end() && start
                    == align_up_spec(old(self).spec_next() as int, align as int) && final(self).spec_next() == start + size && final(self).spec_allocations() == old(self).spec_allocations() + 1,
                None => old(self).spec_next() > old(self).spec_heap_end() && *final(self) == *old(self),
            },
    {
        let allocation_start = align_up(self.next, align);
        let allocation_end = allocation_start + size;
        if self.next > self.heap_end {
            // out of memory
            None
        } else {
            self.allocations = self.allocations + 1;
            self.next = allocation_end;
            Some(allocation_start)
        }
    }

    /// Notes that one allocation was freed; once none are left, the
    /// cursor returns to the heap start and the memory is reusable.
    pub fn deallocate(&mut self)
        requires
            old(self).spec_allocations() >= 1,
        ensures
            final(self).spec_heap_start() == old(self).spec_heap_start(),
            final(self).spec_heap_end() == old(self).spec_heap_end(),
            final(self).spec_allocations() == old(self).spec_allocations() - 1,
            final(self).spec_next() == if old(self).spec_allocations() == 1 {
                old(self).spec_heap_start()
            } else {
                old(self).spec_next()
            },
    {
        self.allocations = self.allocations - 1;
        if self.allocations == 0 {
            self.next = self.heap_start;
        }
    }
}

/// An allocator that refuses every request; it stands in before the heap
/// is initialized.
pub struct NullAllocator;

impl NullAllocator {
    /// Always fails: there is no memory to hand out.
    pub fn allocate(&self, _size: u64, _align: u64) -> (r: Option<u64>)
        ensures
            r is None,
    {
        None
    }
}

/// The terminal page-table slot for the normal page of `va` carries no
/// data yet: its word is absent or zero, so a mapping may be installed.
pub open spec fn slot_clean(m: TableView, root: u64, va: u64) -> bool {
    normal_terminal_word(m, root, va) is None || normal_terminal_word(m, root, va) == Some(0u64)
}

/// Within the heap range, the three upper table indices are fixed, and
/// two addresses share their level-1 index exactly when they lie in the
/// same page.
proof fn lemma_heap_indices(va1: u64, va2: u64)
    requires
        HEAP_START <= va1 < HEAP_START + HEAP_SIZE,
        HEAP_START <= va2 < HEAP_START + HEAP_SIZE,
    ensures
        crate::address::l4_index_of(va1) == crate::address::l4_index_of(va2),
        crate::address::l3_index_of(va1) == crate::address::l3_index_of(va2),
        crate::address::l2_index_of(va1) == crate::address::l2_index_of(va2),
        (crate::address::l1_index_of(va1) == crate::address::l1_index_of(va2)) == (va1 / 0x1000
            == va2 / 0x1000),
        va1 < va2 && va2 % 0x1000 == 0 ==> va1 / 0x1000 != va2 / 0x1000,
{
    assert((0x4444_4444_0000 <= va1 < 0x4444_4444_0000 + 0x19000 && 0x4444_4444_0000 <= va2
        < 0x4444_4444_0000 + 0x19000) ==> ((va1 / 0x80_0000_0000) % 512 == (va2
        / 0x80_0000_0000) % 512 && (va1 / 0x4000_0000) % 512 == (va2 / 0x4000_0000) % 512 && (
    va1 / 0x20_0000) % 512 == (va2 / 0x20_0000) % 512 && (((va1 / 0x1000) % 512 == (va2 / 0x1000)
        % 512) == (va1 / 0x1000 == va2 / 0x1000)) && ((va1 < va2 && va2 % 0x1000 == 0) ==> va1
        / 0x1000 != va2 / 0x1000))) by (bit_vector);
}

/// A heap terminal word merges the frame base with the present and
/// writable flags, and keeps the base as its address part.
proof fn lemma_heap_word_bits(fs: u64)
    requires
        fs % 4096 == 0,
        fs < 0x10_0000_0000_0000,
    ensures
        entry_address(fs | 0x3) == fs,
        (fs | 0x3u64) & 0x3 == 0x3,
{
    assert((fs % 4096 == 0 && fs < 0x10_0000_0000_0000) ==> ((fs | 0x3u64)
        & 0x000f_ffff_ffff_f000 == fs && (fs | 0x3u64) & 0x3 == 0x3)) by (bit_vector);
}

/// Sets up the kernel heap: maps every page of the fixed heap range to a
/// freshly allocated physical frame, then seeds the free-list allocator
/// with the whole range.
///
/// On success every page of the heap range carries a present, writable
/// mapping onto its own frame — the backing frames are pairwise
/// distinct — and the allocator owns exactly the heap region. On failure
/// the error is passed on: allocation failure happens only when the
/// frame allocator is exhausted, the already-used error only when some
/// heap page already carried data; either way every existing translation
/// is unchanged, installed pages are not rolled back, and the allocator
/// is not seeded.
pub fn init_heap(mapper: &mut OffsetMemoryMapper, allocator: &mut LinkedListAllocator) -> (r:
    Result<(), MappingError>)
    requires
        old(mapper).wf(),
        no_huge_anywhere(old(mapper).mem()),
        old(mapper).spec_frame_allocator().spec_next() + 128 <= usize::MAX,
    ensures
        final(mapper).wf(),
        final(mapper).root() == old(mapper).root(),
        final(mapper).spec_offset() == old(mapper).spec_offset(),
        final(mapper).spec_frame_allocator().spec_regions() == old(mapper).spec_frame_allocator().spec_regions(),
        no_huge_anywhere(final(mapper).mem()),
        forall|va: u64|
            walk(old(mapper).mem(), old(mapper).root(), va) is Some ==> #[trigger] walk(
                final(mapper).mem(),
                old(mapper).root(),
                va,
            ) == walk(old(mapper).mem(), old(mapper).root(), va),
        match r {
            Ok(()) => (forall|va: u64|
                HEAP_START <= va < HEAP_START + HEAP_SIZE ==> #[trigger] walk(
                    final(mapper).mem(),
                    old(mapper).root(),
                    va,
                ) is Some) && (forall|va: u64|
                HEAP_START <= va < HEAP_START + HEAP_SIZE ==> (#[trigger] normal_terminal_word(
                    final(mapper).mem(),
                    old(mapper).root(),
                    va,
                ) matches Some(w) && w & 0x3 == 0x3)) && (forall|va1: u64, va2: u64|
                HEAP_START <= va1 < HEAP_START + HEAP_SIZE && HEAP_START <= va2 < HEAP_START
                    + HEAP_SIZE && va1 / 0x1000 != va2 / 0x1000 ==> (#[trigger]
                normal_terminal_word(final(mapper).mem(), old(mapper).root(), va1) matches Some(
                    w1,
                ) && #[trigger] normal_terminal_word(
                    final(mapper).mem(),
                    old(mapper).root(),
                    va2,
                ) matches Some(w2) && entry_address(w1) != entry_address(w2)))
                && final(allocator)@ == seq![
                Region { addr: HEAP_START, size: HEAP_SIZE },
            ] + old(allocator)@,
            Err(e) => (e == MappingError::PageTableEntryAlreadyUsed || e
                == MappingError::FrameAllocationFailed) && *final(allocator) == *old(allocator)
                && (e == MappingError::FrameAllocationFailed ==> final(mapper).spec_frame_allocator().spec_next() >= frame_seq(
                final(mapper).spec_frame_allocator().spec_regions(),
            ).len()) && (e == MappingError::PageTableEntryAlreadyUsed ==> exists|va: u64|
                HEAP_START <= va < HEAP_START + HEAP_SIZE && !slot_clean(
                    old(mapper).mem(),
                    old(mapper).root(),
                    va,
                )),
        },
{
    let heap_start = VirtualAddress::new(HEAP_START);
    let heap_end = heap_start.add(HEAP_SIZE - 1);
    let heap_start_page = PageInner::<Size4KiB>::containing_address(heap_start);
    let heap_end_page = PageInner::<Size4KiB>::containing_address(heap_end);
    let mut page_range = PageInner::range_inclusive(heap_start_page, heap_end_page);
    let ghost m0 = mapper.mem();
    let ghost rootg = mapper.root();
    let ghost fa0 = mapper.spec_frame_allocator().spec_next();
    let ghost regions0 = mapper.spec_frame_allocator().spec_regions();
    let mut mapped: u64 = 0;
    proof {
        assert(HEAP_START % 0x1000 == 0 && (HEAP_START + HEAP_SIZE - 1) as u64 % 0x1000 == 0xfff
            && HEAP_SIZE % 0x1000 == 0) by (bit_vector);
    }
    while !page_range.is_empty()
        invariant
            mapper.wf(),
            old(mapper).wf(),
            no_huge_anywhere(mapper.mem()),
            mapper.root() == rootg,
            mapper.spec_offset() == old(mapper).spec_offset(),
            rootg == old(mapper).root(),
            m0 == old(mapper).mem(),
            fa0 == old(mapper).spec_frame_allocator().spec_next(),
            regions0 == old(mapper).spec_frame_allocator().spec_regions(),
            mapper.spec_frame_allocator().spec_regions() == regions0,
            *allocator == *old(allocator),
            page_range.end.spec_start() == HEAP_START + HEAP_SIZE - 0x1000,
            page_range.start.spec_start() == HEAP_START + 0x1000 * mapped,
            0 <= mapped <= 25,
            (page_range.start.spec_start() > page_range.end.spec_start()) == (mapped == 25),
            fa0 <= mapper.spec_frame_allocator().spec_next() <= fa0 + 4 * mapped,
            fa0 + 128 <= usize::MAX,
            forall|va: u64|
                HEAP_START <= va < HEAP_START + 0x1000 * mapped ==> #[trigger] walk(
                    mapper.mem(),
                    rootg,
                    va,
                ) is Some,
            forall|va: u64|
                #[trigger] walk(m0, rootg, va) is Some ==> walk(mapper.mem(), rootg, va) == walk(
                    m0,
                    rootg,
                    va,
                ),
            (forall|va: u64| HEAP_START <= va < HEAP_START + HEAP_SIZE ==> slot_clean(
                m0,
                rootg,
                va,
            )) ==> (forall|va: u64|
                HEAP_START + 0x1000 * mapped <= va < HEAP_START + HEAP_SIZE ==> slot_clean(
                    mapper.mem(),
                    rootg,
                    va,
                )),
            forall|va: u64|
                HEAP_START <= va < HEAP_START + 0x1000 * mapped ==> (#[trigger]
                normal_terminal_word(mapper.mem(), rootg, va) matches Some(w) && w & 0x3 == 0x3
                    && (exists|j: int|
                    fa0 <= j < mapper.spec_frame_allocator().spec_next() && j < frame_seq(
                        regions0,
                    ).len() && entry_address(w) == frame_seq(regions0)[j])),
            forall|va1: u64, va2: u64|
                HEAP_START <= va1 < HEAP_START + 0x1000 * mapped && HEAP_START <= va2 < HEAP_START
                    + 0x1000 * mapped && va1 / 0x1000 != va2 / 0x1000 ==> (#[trigger]
                normal_terminal_word(mapper.mem(), rootg, va1) matches Some(w1) && #[trigger]
                normal_terminal_word(mapper.mem(), rootg, va2) matches Some(w2) && entry_address(
                    w1,
                ) != entry_address(w2)),
        decreases 25 - mapped,
    {
        let ghost m_iter = mapper.mem();
        let ghost next_iter = mapper.spec_frame_allocator().spec_next();
        let page_inner = match page_range.next() {
            Some(p) => p,
            None => {
                proof {
                    assert(false);
                }
                heap_start_page
            },
        };
        let page = Page::Normal(page_inner);
        let ghost s_k = page.spec_start();
        let frame = match mapper.allocate_frame() {
            Some(f) => f,
            None => {
                proof {
                    assert(mapper.spec_frame_allocator().spec_next() >= frame_seq(
                        regions0,
                    ).len());
                }
                return Err(MappingError::FrameAllocationFailed);
            },
        };
        let f_start = frame.start_address();
        let flags = PageTableEntryFlags::present().or(PageTableEntryFlags::writable());
        proof {
            use_type_invariant(&f_start);
            assert(0x1u64 | 0x2 == 0x3 && 0x3u64 & 0x1 == 0x1 && 0x3u64 & 0x80 != 0x80)
                by (bit_vector);
            mapper.lemma_path_clear(page);
        }
        match mapper.map_to(page, frame, flags) {
            Ok(()) => {},
            Err(e) => {
                proof {
                    assert(e != MappingError::InvalidPageFrameMapping);
                    assert forall|va: u64|
                        walk(m0, rootg, va) is Some implies #[trigger] walk(
                        mapper.mem(),
                        rootg,
                        va,
                    ) == walk(m0, rootg, va) by {
                        assert(walk(m_iter, rootg, va) == walk(m0, rootg, va));
                    }
                    assert(HEAP_START <= s_k < HEAP_START + HEAP_SIZE);
                    if e == MappingError::PageTableEntryAlreadyUsed {
                        assert(!slot_clean(m_iter, rootg, s_k)) by {
                            reveal(terminal_word);
                        }
                        if forall|va: u64|
                            HEAP_START <= va < HEAP_START + HEAP_SIZE ==> slot_clean(
                                m0,
                                rootg,
                                va,
                            ) {
                            assert(slot_clean(m_iter, rootg, s_k));
                            assert(false);
                        }
                        assert(exists|va: u64|
                            HEAP_START <= va < HEAP_START + HEAP_SIZE && !slot_clean(
                                m0,
                                rootg,
                                va,
                            ));
                    }
                }
                return Err(e);
            },
        }
        mapped = mapped + 1;
        proof {
            let m_new = mapper.mem();
            let n_new = mapper.spec_frame_allocator().spec_next();
            let fstart = f_start@;
            lemma_heap_word_bits(fstart);
            assert(terminal_word(m_new, rootg, page) == Some(fstart | 0x3));
            assert(normal_terminal_word(m_new, rootg, s_k) == Some(fstart | 0x3)) by {
                reveal(terminal_word);
            }
            assert(HEAP_START <= s_k < HEAP_START + HEAP_SIZE);
            // The walk of the freshly mapped page.
            assert forall|va: u64|
                HEAP_START <= va < HEAP_START + 0x1000 * mapped implies #[trigger] walk(
                m_new,
                rootg,
                va,
            ) is Some by {
                if va < HEAP_START + 0x1000 * (mapped - 1) {
                    assert(walk(m_iter, rootg, va) is Some);
                } else {
                    assert(page.spec_start() <= va < page.spec_start() + 0x1000);
                }
            }
            // Terminal words: the new page's pages all read the new word,
            // earlier pages keep theirs, later pages stay clean.
            assert forall|va: u64|
                HEAP_START <= va < HEAP_START + 0x1000 * mapped implies (#[trigger]
            normal_terminal_word(m_new, rootg, va) matches Some(w) && w & 0x3 == 0x3 && (exists|j: int|
                fa0 <= j < n_new && j < frame_seq(regions0).len() && entry_address(w)
                    == frame_seq(regions0)[j])) by {
                lemma_heap_indices(va, s_k);
                if va >= HEAP_START + 0x1000 * (mapped - 1) {
                    assert(normal_terminal_word(m_new, rootg, va) == normal_terminal_word(
                        m_new,
                        rootg,
                        s_k,
                    )) by {
                        reveal(normal_terminal_word);
                    }
                    assert(fa0 <= next_iter < n_new && next_iter < frame_seq(regions0).len()
                        && fstart == frame_seq(regions0)[next_iter]);
                } else {
                    assert(normal_terminal_word(m_iter, rootg, va) matches Some(w0) && w0 & 0x3
                        == 0x3);
                    assert(normal_terminal_word(m_new, rootg, va) == normal_terminal_word(
                        m_iter,
                        rootg,
                        va,
                    ));
                }
            }
            // Distinctness of the backing frames.
            assert forall|va1: u64, va2: u64|
                HEAP_START <= va1 < HEAP_START + 0x1000 * mapped && HEAP_START <= va2 < HEAP_START
                    + 0x1000 * mapped && va1 / 0x1000 != va2 / 0x1000 implies (#[trigger]
            normal_terminal_word(m_new, rootg, va1) matches Some(w1) && #[trigger]
            normal_terminal_word(m_new, rootg, va2) matches Some(w2) && entry_address(w1)
                != entry_address(w2)) by {
                old(mapper).lemma_remaining_frames_distinct();
                lemma_heap_indices(va1, s_k);
                lemma_heap_indices(va2, s_k);
                lemma_heap_indices(va1, va2);
                assert(normal_terminal_word(m_new, rootg, s_k) == Some(fstart | 0x3));
                if va1 >= HEAP_START + 0x1000 * (mapped - 1) {
                    assert(normal_terminal_word(m_new, rootg, va1) == normal_terminal_word(
                        m_new,
                        rootg,
                        s_k,
                    )) by {
                        reveal(normal_terminal_word);
                    }
                }
                if va2 >= HEAP_START + 0x1000 * (mapped - 1) {
                    assert(normal_terminal_word(m_new, rootg, va2) == normal_terminal_word(
                        m_new,
                        rootg,
                        s_k,
                    )) by {
                        reveal(normal_terminal_word);
                    }
                }
                if va1 < HEAP_START + 0x1000 * (mapped - 1) {
                    assert(normal_terminal_word(m_new, rootg, va1) == normal_terminal_word(
                        m_iter,
                        rootg,
                        va1,
                    ));
                }
                if va2 < HEAP_START + 0x1000 * (mapped - 1) {
                    assert(normal_terminal_word(m_new, rootg, va2) == normal_terminal_word(
                        m_iter,
                        rootg,
                        va2,
                    ));
                }
            }
            // Later pages stay clean.
            if forall|va: u64| HEAP_START <= va < HEAP_START + HEAP_SIZE ==> slot_clean(
                m0,
                rootg,
                va,
            ) {
                assert forall|va: u64|
                    HEAP_START + 0x1000 * mapped <= va < HEAP_START + HEAP_SIZE implies slot_clean(
                    m_new,
                    rootg,
                    va,
                ) by {
                    lemma_heap_indices(va, s_k);
                    assert(slot_clean(m_iter, rootg, va));
                }
            }
        }
    }
    proof {
        assert(mapped == 25);
        assert(HEAP_START + 0x1000 * 25 == HEAP_START + HEAP_SIZE) by (bit_vector);
        assert(HEAP_START as u64 % 8 == 0) by (bit_vector);
    }
    allocator.init(HEAP_START, HEAP_SIZE);
    Ok(())
}


/// A multiple of a multiple of `b` is a multiple of `b`.
proof fn lemma_multiple_of_multiple(x: int, a: int, b: int)
    requires
        x % a == 0,
        a % b == 0,
        a >= 1,
        b >= 1,
        x >= 0,
    ensures
        x % b == 0,
{
    vstd::arithmetic::div_mod::lemma_fundamental_div_mod(x, a);
    vstd::arithmetic::div_mod::lemma_fundamental_div_mod(a, b);
    let q = x / a;
    let r = a / b;
    assert(x == a * q && a == b * r);
    assert(x == (q * r) * b) by (nonlinear_arith)
        requires
            x == a * q,
            a == b * r,
    ;
    vstd::arithmetic::div_mod::lemma_mod_multiples_basic(q * r, b);
}

/// Bounds of the padded layout: the padded size is at least a node and
/// within one alignment of the request; the padded alignment is at least
/// the node alignment; and when the padded alignment is a multiple of the
/// node alignment, so is the padded size.
proof fn lemma_padded_bounds(size: int, align: int)
    requires
        1 <= align <= MAX_ALIGN,
        0 <= size <= MAX_REQUEST,
    ensures
        NODE_SIZE <= padded_size(size, align) <= MAX_REQUEST + MAX_ALIGN + NODE_SIZE,
        NODE_ALIGN <= padded_align(align) <= MAX_ALIGN,
        padded_align(align) % (NODE_ALIGN as int) == 0 ==> padded_size(size, align) % (
        NODE_ALIGN as int) == 0,
{
    let a = padded_align(align);
    lemma_align_up_properties(size, a);
    let sp = align_up_spec(size, a);
    if a % (NODE_ALIGN as int) == 0 {
        lemma_multiple_of_multiple(sp, a, NODE_ALIGN as int);
        assert(NODE_SIZE as int % (NODE_ALIGN as int) == 0) by (nonlinear_arith);
    }
}

/// A power-of-two alignment of at least the node alignment is a multiple
/// of it.
proof fn lemma_power_of_two_align(align: int)
    requires
        is_power_of_two(align as u64),
        align <= MAX_ALIGN,
    ensures
        padded_align(align) % (NODE_ALIGN as int) == 0,
{
    let a = align as u64;
    assert((a != 0 && a & (a - 1) as u64 == 0 && a >= 8) ==> a % 8 == 0) by (bit_vector);
}

} // verus!
