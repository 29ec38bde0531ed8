//! The typed physical memory map handed over by boot code: regions of
//! frames, each tagged with what the range is used for.

use vstd::prelude::*;
use crate::paging::entry::MAX_ENTRY_FRAME;

verus! {

/// What a region of physical memory is used for.
#[derive(Debug, Clone, Copy, PartialEq, Eq, Structural)]
pub enum MemoryRegionType {
    /// Free for allocation.
    Usable,
    /// Holds the loaded kernel image.
    Kernel,
    /// Holds the bootloader and its boot information.
    Bootloader,
    /// Must not be touched.
    Reserved,
}

/// A right-open range of physical frames.
#[derive(Debug, Clone, Copy, PartialEq, Eq, Structural)]
pub struct FrameRange {
    /// First frame of the range.
    pub start_frame: u64,
    /// First frame past the range.
    pub end_frame: u64,
}

impl FrameRange {
    /// The range covering `[start_addr, end_addr)`, which must be
    /// page-aligned.
    pub fn new(start_addr: u64, end_addr: u64) -> (r: FrameRange)
        requires
            start_addr % 4096 == 0,
            end_addr % 4096 == 0,
        ensures
            r.start_frame == start_addr / 4096,
            r.end_frame == end_addr / 4096,
    {
        FrameRange { start_frame: start_addr / 4096, end_frame: end_addr / 4096 }
    }

    /// Physical address of the range's first byte.
    pub fn start_addr(&self) -> (r: u64)
        requires
            self.start_frame < 0x10000000000000,
        ensures
            r == self.start_frame * 4096,
    {
        self.start_frame * 4096
    }

    /// Physical address just past the range.
    pub fn end_addr(&self) -> (r: u64)
        requires
            self.end_frame < 0x10000000000000,
        ensures
            r == self.end_frame * 4096,
    {
        self.end_frame * 4096
    }
}

/// One region of the memory map.
#[derive(Debug, Clone, Copy, PartialEq, Eq, Structural)]
pub struct MemoryRegion {
    /// The frames the region covers.
    pub range: FrameRange,
    /// What the region is used for.
    pub region_type: MemoryRegionType,
}

/// A region whose frames all fit into page-table entries.
pub open spec fn region_wf(r: MemoryRegion) -> bool {
    r.range.start_frame <= r.range.end_frame && r.range.end_frame <= MAX_ENTRY_FRAME
}

/// The typed map of physical memory, as a list of regions. Regions may
/// overlap: a Kernel or Bootloader region may lie inside a Usable one.
#[derive(Debug)]
pub struct MemoryMap {
    regions: Vec<MemoryRegion>,
}

impl View for MemoryMap {
    type V = Seq<MemoryRegion>;

    closed spec fn view(&self) -> Seq<MemoryRegion> {
        self.regions@
    }
}

impl MemoryMap {
    #[verifier::type_invariant]
    pub closed spec fn type_wf(&self) -> bool {
        forall|i: int| 0 <= i < self.regions@.len() ==> region_wf(#[trigger] self.regions@[i])
    }

    /// Every region of the map fits into page-table entries.
    pub proof fn lemma_regions_wf(&self)
        requires
            self.type_wf(),
        ensures
            forall|i: int| 0 <= i < self@.len() ==> region_wf(#[trigger] self@[i]),
    {
    }

    /// An empty map.
    pub fn new() -> (r: MemoryMap)
        ensures
            r@ == Seq::<MemoryRegion>::empty(),
    {
        let r = MemoryMap { regions: Vec::new() };
        proof {
            assert(r@ =~= Seq::<MemoryRegion>::empty());
        }
        r
    }

    /// Append a region to the map.
    pub fn add_region(&mut self, region: MemoryRegion)
        requires
            region_wf(region),
        ensures
            final(self)@ == old(self)@.push(region),
    {
        proof {
            use_type_invariant(&*self);
        }
        let mut tmp = MemoryMap { regions: Vec::new() };
        std::mem::swap(self, &mut tmp);
        let MemoryMap { mut regions } = tmp;
        regions.push(region);
        *self = MemoryMap { regions };
    }

    /// Number of regions.
    pub fn len(&self) -> (r: usize)
        ensures
            r == self@.len(),
    {
        self.regions.len()
    }

    /// The region at the given position.
    pub fn region_at(&self, i: usize) -> (r: MemoryRegion)
        requires
            i < self@.len(),
        ensures
            r == self@[i as int],
    {
        self.regions[i]
    }

    /// An independent copy of the map.
    pub fn duplicate(&self) -> (r: MemoryMap)
        ensures
            r@ == self@,
    {
        proof {
            use_type_invariant(self);
        }
        let mut regions: Vec<MemoryRegion> = Vec::new();
        let mut i: usize = 0;
        while i < self.regions.len()
            invariant
                i <= self.regions@.len(),
                regions@ == self.regions@.take(i as int),
                forall|k: int| 0 <= k < self.regions@.len() ==> region_wf(
                    #[trigger] self.regions@[k],
                ),
            decreases self.regions@.len() - i,
        {
            regions.push(self.regions[i]);
            proof {
                assert(regions@ =~= self.regions@.take(i + 1));
            }
            i = i + 1;
        }
        proof {
            assert(self.regions@.take(self.regions@.len() as int) =~= self.regions@);
        }
        MemoryMap { regions }
    }
}

} // verus!
