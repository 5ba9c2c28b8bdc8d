//! Physical frame allocation from the boot-supplied memory map.
//!
//! The allocator enumerates the 4 KiB frames of the usable regions in
//! order and hands each out exactly once: a cursor only ever advances, and
//! no frame is ever taken back.

use vstd::prelude::*;

use crate::address::{PhysicalAddress, PHYSICAL_ADDRESS_LIMIT};
use crate::paging::PageFrame;

verus! {

/// What a region of the boot memory map may be used for.
#[derive(Debug, Clone, Copy, PartialEq, Eq, Structural)]
pub enum MemoryRegionKind {
    /// Free physical memory that the kernel may allocate from.
    Usable,
    /// Memory that is reserved or already in use.
    Reserved,
}

/// One region of the boot-supplied physical memory map, spanning the
/// addresses from `start` (included) to `end` (excluded).
#[derive(Debug, Clone, Copy, PartialEq, Eq, Structural)]
pub struct MemoryRegion {
    /// First physical address of the region.
    pub start: u64,
    /// First physical address past the region.
    pub end: u64,
    /// What the region may be used for.
    pub kind: MemoryRegionKind,
}

/// How many 4 KiB allocation steps fit into the region: zero for a
/// reserved or empty region, otherwise the byte length divided by 4 KiB,
/// rounded up.
pub open spec fn region_frame_count(r: MemoryRegion) -> int {
    if r.kind != MemoryRegionKind::Usable || r.end <= r.start {
        0
    } else {
        (r.end - r.start + 4095) / 4096
    }
}

/// The `k`-th frame address of a region: `k` steps of 4 KiB above the
/// region start, rounded down to the frame boundary.
pub open spec fn region_frame(r: MemoryRegion, k: int) -> u64 {
    let a = r.start + 4096 * k;
    (a - a % 4096) as u64
}

/// The frame addresses of one region, in order.
pub open spec fn region_frames(r: MemoryRegion) -> Seq<u64> {
    Seq::new(region_frame_count(r) as nat, |k: int| region_frame(r, k))
}

/// All frame addresses of the memory map, region by region, in order.
/// This is the exact sequence in which the allocator hands frames out.
pub open spec fn frame_seq(regions: Seq<MemoryRegion>) -> Seq<u64>
    decreases regions.len(),
{
    if regions.len() == 0 {
        Seq::empty()
    } else {
        region_frames(regions[0]) + frame_seq(regions.drop_first())
    }
}

/// Splitting the memory map splits its frame sequence.
pub proof fn lemma_frame_seq_split(s: Seq<MemoryRegion>, i: int)
    requires
        0 <= i <= s.len(),
    ensures
        frame_seq(s) == frame_seq(s.take(i)) + frame_seq(s.skip(i)),
    decreases i,
{
    if i == 0 {
        assert(s.take(0) =~= Seq::<MemoryRegion>::empty());
        assert(s.skip(0) =~= s);
        assert(frame_seq(s) =~= frame_seq(s.take(0)) + frame_seq(s.skip(0)));
    } else {
        let rest = s.drop_first();
        lemma_frame_seq_split(rest, i - 1);
        assert(s.take(i).drop_first() =~= rest.take(i - 1));
        assert(s.skip(i) =~= rest.skip(i - 1));
        assert(s.take(i).len() != 0 && s.take(i)[0] == s[0]);
        assert(frame_seq(s.take(i)) == region_frames(s[0]) + frame_seq(rest.take(i - 1)));
        assert(frame_seq(s) =~= frame_seq(s.take(i)) + frame_seq(s.skip(i)));
    }
}

/// The frame sequence of the first `i + 1` regions extends that of the
/// first `i` regions by the frames of region `i`.
pub proof fn lemma_frame_seq_step(s: Seq<MemoryRegion>, i: int)
    requires
        0 <= i < s.len(),
    ensures
        frame_seq(s.take(i + 1)) == frame_seq(s.take(i)) + region_frames(s[i]),
{
    let t = s.take(i + 1);
    lemma_frame_seq_split(t, i);
    assert(t.take(i) =~= s.take(i));
    assert(t.skip(i) =~= seq![s[i]]);
    let single = seq![s[i]];
    assert(single.len() == 1 && single[0] == s[i]);
    assert(single.drop_first() =~= Seq::<MemoryRegion>::empty());
    assert(frame_seq(single) == region_frames(s[i]) + frame_seq(single.drop_first()));
    assert(region_frames(s[i]) + Seq::<u64>::empty() =~= region_frames(s[i]));
}

/// Hands out the usable physical frames of the boot memory map, one at a
/// time, never repeating one.
pub struct FrameAllocator {
    regions: Vec<MemoryRegion>,
    next: usize,
}

impl FrameAllocator {
    /// The regions of the memory map the allocator draws from.
    pub closed spec fn spec_regions(self) -> Seq<MemoryRegion> {
        self.regions@
    }

    /// How many frames have been requested so far; the cursor into the
    /// frame sequence.
    pub closed spec fn spec_next(self) -> int {
        self.next as int
    }

    /// The allocator only serves maps whose regions lie below the
    /// physical address limit; the boot collaborator guarantees this.
    pub open spec fn wf(self) -> bool {
        &&& 0 <= self.spec_next()
        &&& forall|i: int|
            0 <= i < self.spec_regions().len() ==> (#[trigger] self.spec_regions()[i]).end
                <= PHYSICAL_ADDRESS_LIMIT && self.spec_regions()[i].start <= PHYSICAL_ADDRESS_LIMIT
    }

    /// Creates an allocator over the given memory map, with no frame
    /// handed out yet. The map is trusted, not validated: every region
    /// marked usable must really be unused.
    pub fn new(regions: Vec<MemoryRegion>) -> (r: Self)
        ensures
            r.spec_regions() == regions@,
            r.spec_next() == 0,
    {
        FrameAllocator { regions, next: 0 }
    }

    /// Returns the next 4 KiB frame of the usable regions, or `None` once
    /// the map is exhausted. The cursor advances either way, and a frame
    /// that was handed out is never handed out again.
    pub fn allocate_normal_frame(&mut self) -> (r: Option<PageFrame>)
        requires
            old(self).wf(),
            old(self).spec_next() < usize::MAX,
        ensures
            final(self).spec_regions() == old(self).spec_regions(),
            final(self).spec_next() == old(self).spec_next() + 1,
            final(self).wf(),
            ({
                let frames = frame_seq(old(self).spec_regions());
                match r {
                    Some(f) => old(self).spec_next() < frames.len() && f is Normal
                        && f.spec_start() == frames[old(self).spec_next()],
                    None => old(self).spec_next() >= frames.len(),
                }
            }),
    {
        let ghost all_regions = self.regions@;
        let target: u64 = self.next as u64;
        self.next = self.next + 1;
        let mut i: usize = 0;
        let mut skipped: u64 = 0;
        proof {
            assert(all_regions.take(0) =~= Seq::<MemoryRegion>::empty());
        }
        while i < self.regions.len()
            invariant
                self.regions@ == all_regions,
                all_regions == old(self).spec_regions(),
                self.next == old(self).spec_next() + 1,
                target == old(self).spec_next(),
                self.wf(),
                0 <= i <= all_regions.len(),
                skipped == frame_seq(all_regions.take(i as int)).len(),
                skipped <= target,
            decreases all_regions.len() - i,
        {
            let region = self.regions[i];
            let count: u64 = if matches!(region.kind, MemoryRegionKind::Usable) && region.end
                > region.start {
                (region.end - region.start + 4095) / 4096
            } else {
                0
            };
            proof {
                lemma_frame_seq_step(all_regions, i as int);
                assert(count == region_frame_count(region));
            }
            if target - skipped < count {
                let k: u64 = target - skipped;
                proof {
                    assert(4096 * k < 4096 * count ==> region.start + 4096 * k < region.start
                        + 4096 * count) by (nonlinear_arith);
                    assert(k < count ==> 4096 * k <= 4096 * (count - 1)) by (nonlinear_arith);
                    assert(count == (region.end - region.start + 4095) / 4096 && count > 0
                        ==> 4096 * (count - 1) < region.end - region.start) by (nonlinear_arith);
                    assert(region.end <= PHYSICAL_ADDRESS_LIMIT);
                }
                let a: u64 = region.start + 4096 * k;
                let aligned: u64 = a - a % 4096;
                proof {
                    crate::paging::lemma_align_is_aligned(a, 4096);
                    assert(frame_seq(all_regions.take(i as int + 1))[target as int]
                        == region_frame(region, k as int));
                    lemma_frame_seq_split(all_regions, i as int + 1);
                    assert(frame_seq(all_regions)[target as int] == frame_seq(
                        all_regions.take(i as int + 1),
                    )[target as int]);
                }
                return Some(PageFrame::normal_from_raw(PhysicalAddress::new(aligned)));
            }
            proof {
                assert(frame_seq(all_regions.take(i as int + 1)).len() == skipped
                    + region_frame_count(region));
            }
            skipped = skipped + count;
            i = i + 1;
        }
        proof {
            assert(all_regions.take(all_regions.len() as int) =~= all_regions);
        }
        None
    }
}

} // verus!
