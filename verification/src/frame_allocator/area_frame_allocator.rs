//! An allocator that walks a typed memory map: it yields frames strictly
//! inside Usable regions in ascending order, skips every frame inside a
//! Kernel or Bootloader region even when the underlying region is Usable,
//! and records each handed-out frame in an injected frame set.

use vstd::prelude::*;
use crate::frame::Frame;
use crate::frame_allocator::FrameAllocator;
use crate::frame_set::{FrameSet, FrameSetMut};
use crate::memory_map::{MemoryMap, MemoryRegion, MemoryRegionType, region_wf};
use crate::paging::entry::MAX_ENTRY_FRAME;

verus! {

/// Frame `g` lies in a Usable region of the map.
pub open spec fn usable_at(map: Seq<MemoryRegion>, g: u64) -> bool {
    exists|i: int|
        0 <= i < map.len() && (#[trigger] map[i]).region_type == MemoryRegionType::Usable
            && map[i].range.start_frame <= g < map[i].range.end_frame
}

/// Frame `g` lies in a Kernel or Bootloader region and must never be
/// handed out.
pub open spec fn skipped_at(map: Seq<MemoryRegion>, g: u64) -> bool {
    exists|i: int|
        0 <= i < map.len() && ((#[trigger] map[i]).region_type == MemoryRegionType::Kernel
            || map[i].region_type == MemoryRegionType::Bootloader)
            && map[i].range.start_frame <= g < map[i].range.end_frame
}

/// Frame `g` may still be handed out by an allocator whose cursor stands at
/// `cursor`.
pub open spec fn allocatable(map: Seq<MemoryRegion>, cursor: u64, g: u64) -> bool {
    cursor <= g && usable_at(map, g) && !skipped_at(map, g)
}

/// `g` is the next frame the allocator will hand out: the smallest
/// allocatable one.
pub open spec fn is_next(map: Seq<MemoryRegion>, cursor: u64, g: u64) -> bool {
    allocatable(map, cursor, g) && forall|h: u64| h < g ==> !allocatable(map, cursor, h)
}

/// Some frame is still allocatable.
pub open spec fn has_next(map: Seq<MemoryRegion>, cursor: u64) -> bool {
    exists|g: u64| is_next(map, cursor, g)
}

/// The allocator can satisfy `n` more requests: at each step a next frame
/// exists and the bookkeeping set has room for it.
pub open spec fn supply_ok(map: Seq<MemoryRegion>, cursor: u64, set_spare: nat, n: nat) -> bool
    decreases n,
{
    if n == 0 {
        true
    } else {
        has_next(map, cursor) && set_spare > 0 && (choose|g: u64| is_next(map, cursor, g))
            < 0xffffffffffffffff && supply_ok(
            map,
            ((choose|g: u64| is_next(map, cursor, g)) + 1) as u64,
            (set_spare - 1) as nat,
            (n - 1) as nat,
        )
    }
}

/// Whatever the allocator may still hand out lies in a Usable region and
/// never inside a Kernel or Bootloader range, however the regions overlap.
pub proof fn lemma_avail_frames_safe(map: Seq<MemoryRegion>, cursor: u64, g: u64)
    requires
        allocatable(map, cursor, g),
    ensures
        usable_at(map, g),
        !skipped_at(map, g),
{
}

/// The next frame is unique.
pub proof fn lemma_is_next_unique(map: Seq<MemoryRegion>, cursor: u64, g1: u64, g2: u64)
    requires
        is_next(map, cursor, g1),
        is_next(map, cursor, g2),
    ensures
        g1 == g2,
{
    if g1 < g2 {
        assert(!allocatable(map, cursor, g1));
    }
    if g2 < g1 {
        assert(!allocatable(map, cursor, g2));
    }
}

/// An allocatable frame guarantees a smallest allocatable frame.
pub proof fn lemma_has_next(map: Seq<MemoryRegion>, cursor: u64, g: u64)
    requires
        allocatable(map, cursor, g),
    ensures
        has_next(map, cursor),
    decreases g,
{
    if exists|h: u64| h < g && allocatable(map, cursor, h) {
        let h = choose|h: u64| h < g && allocatable(map, cursor, h);
        lemma_has_next(map, cursor, h);
    } else {
        assert(is_next(map, cursor, g));
    }
}

/// More room in the bookkeeping set never hurts the supply guarantee.
pub proof fn lemma_supply_ok_mono(
    map: Seq<MemoryRegion>,
    cursor: u64,
    s1: nat,
    s2: nat,
    n: nat,
)
    requires
        supply_ok(map, cursor, s1, n),
        s1 <= s2,
    ensures
        supply_ok(map, cursor, s2, n),
    decreases n,
{
    if n > 0 {
        let g = choose|g: u64| is_next(map, cursor, g);
        lemma_supply_ok_mono(map, ((g + 1) as u64), (s1 - 1) as nat, (s2 - 1) as nat, (n - 1) as nat);
    }
}

/// The region-walking state of the allocator: the map, the cursor, and the
/// currently chosen region.
struct AreaCore {
    memory_map: MemoryMap,
    next_free_frame: Frame,
    current_region: Option<MemoryRegion>,
}

impl AreaCore {
    #[verifier::type_invariant]
    closed spec fn type_wf(&self) -> bool {
        &&& forall|i: int|
            0 <= i < self.memory_map@.len() ==> region_wf(#[trigger] self.memory_map@[i])
        &&& match self.current_region {
            None => forall|i: int|
                0 <= i < self.memory_map@.len() && (#[trigger] self.memory_map@[i]).region_type
                    == MemoryRegionType::Usable && self.memory_map@[i].range.start_frame
                    < self.memory_map@[i].range.end_frame ==> self.memory_map@[i].range.end_frame
                    <= self.next_free_frame@,
            Some(r) => {
                &&& r.region_type == MemoryRegionType::Usable
                &&& exists|i: int| 0 <= i < self.memory_map@.len() && self.memory_map@[i] == r
                &&& r.range.start_frame <= self.next_free_frame@
            },
        }
    }

    /// The currently selected region.
    closed spec fn current_core_spec(&self) -> Option<MemoryRegion> {
        self.current_region
    }

    closed spec fn map_core_spec(&self) -> Seq<MemoryRegion> {
        self.memory_map@
    }

    closed spec fn cursor_core_spec(&self) -> u64 {
        self.next_free_frame@
    }

    /// Forget the current position, move the cursor to `f`, and pick the
    /// matching region.
    fn retarget(&mut self, f: Frame)
        ensures
            final(self).map_core_spec() == old(self).map_core_spec(),
            f@ <= final(self).cursor_core_spec(),
            forall|h: u64|
                f@ <= h < final(self).cursor_core_spec() ==> !usable_at(
                    old(self).map_core_spec(),
                    h,
                ),
            final(self).current_core_spec() is Some ==> {
                let r = final(self).current_core_spec().unwrap();
                &&& r.region_type == MemoryRegionType::Usable
                &&& r.range.start_frame <= final(self).cursor_core_spec() < r.range.end_frame
            },
            final(self).current_core_spec() is None ==> forall|g: u64|
                g >= f@ ==> !usable_at(old(self).map_core_spec(), g),
    {
        let mut tmp = AreaCore {
            memory_map: MemoryMap::new(),
            next_free_frame: Frame::containing_addr(0),
            current_region: None,
        };
        std::mem::swap(self, &mut tmp);
        let AreaCore { memory_map, next_free_frame: _, current_region: _ } = tmp;
        let cursor = f.index();
        let best = scan_region(&memory_map, cursor);
        let new_cursor = match best {
            Some(r) => {
                if cursor < r.range.start_frame {
                    proof {
                        use_type_invariant(&memory_map);
                        memory_map.lemma_regions_wf();
                        let k = choose|k: int|
                            0 <= k < memory_map@.len() && memory_map@[k] == r;
                        assert(region_wf(memory_map@[k]));
                    }
                    Frame::new(r.range.start_frame)
                } else {
                    f
                }
            },
            None => f,
        };
        proof {
            if best is Some {
                let r = best.unwrap();
                assert forall|h: u64| f@ <= h < new_cursor@ implies !usable_at(
                    memory_map@,
                    h,
                ) by {
                    if usable_at(memory_map@, h) {
                        let k = choose|k: int|
                            0 <= k < memory_map@.len() && (#[trigger] memory_map@[k]).region_type
                                == MemoryRegionType::Usable && memory_map@[k].range.start_frame
                                <= h < memory_map@[k].range.end_frame;
                        assert(memory_map@[k].range.end_frame > f@);
                        assert(r.range.start_frame <= memory_map@[k].range.start_frame);
                    }
                }
            }
        }
        proof {
            use_type_invariant(&memory_map);
            memory_map.lemma_regions_wf();
            if best is None {
                assert forall|g: u64| g >= cursor implies !usable_at(memory_map@, g) by {
                    if usable_at(memory_map@, g) {
                        let k = choose|k: int|
                            0 <= k < memory_map@.len() && (#[trigger] memory_map@[k]).region_type
                                == MemoryRegionType::Usable && memory_map@[k].range.start_frame
                                <= g < memory_map@[k].range.end_frame;
                        assert(memory_map@[k].range.end_frame <= cursor);
                    }
                }
            }
        }
        *self = AreaCore { memory_map, next_free_frame: new_cursor, current_region: best };
    }

    /// Re-select the region with the smallest base among those that still
    /// reach past the cursor, and pull the cursor up to its start.
    fn choose_next_area(&mut self)
        ensures
            final(self).map_core_spec() == old(self).map_core_spec(),
            old(self).cursor_core_spec() <= final(self).cursor_core_spec(),
            forall|h: u64|
                old(self).cursor_core_spec() <= h < final(self).cursor_core_spec() ==> !usable_at(
                    old(self).map_core_spec(),
                    h,
                ),
            final(self).current_core_spec() is Some ==> {
                let r = final(self).current_core_spec().unwrap();
                &&& r.region_type == MemoryRegionType::Usable
                &&& r.range.start_frame <= final(self).cursor_core_spec() < r.range.end_frame
            },
            final(self).current_core_spec() is None ==> forall|g: u64|
                g >= old(self).cursor_core_spec() ==> !usable_at(old(self).map_core_spec(), g),
    {
        let mut tmp = AreaCore {
            memory_map: MemoryMap::new(),
            next_free_frame: Frame::containing_addr(0),
            current_region: None,
        };
        std::mem::swap(self, &mut tmp);
        let AreaCore { memory_map, next_free_frame, current_region: _ } = tmp;
        let cursor = next_free_frame.index();
        let best = scan_region(&memory_map, cursor);
        let new_cursor = match best {
            Some(r) => {
                if cursor < r.range.start_frame {
                    proof {
                        use_type_invariant(&memory_map);
                        memory_map.lemma_regions_wf();
                        let k = choose|k: int|
                            0 <= k < memory_map@.len() && memory_map@[k] == r;
                        assert(region_wf(memory_map@[k]));
                    }
                    Frame::new(r.range.start_frame)
                } else {
                    next_free_frame
                }
            },
            None => next_free_frame,
        };
        proof {
            if best is Some {
                let r = best.unwrap();
                assert forall|h: u64|
                    next_free_frame@ <= h < new_cursor@ implies !usable_at(memory_map@, h) by {
                    if usable_at(memory_map@, h) {
                        let k = choose|k: int|
                            0 <= k < memory_map@.len() && (#[trigger] memory_map@[k]).region_type
                                == MemoryRegionType::Usable && memory_map@[k].range.start_frame
                                <= h < memory_map@[k].range.end_frame;
                        assert(memory_map@[k].range.end_frame > next_free_frame@);
                        assert(r.range.start_frame <= memory_map@[k].range.start_frame);
                    }
                }
            }
        }
        proof {
            use_type_invariant(&memory_map);
            memory_map.lemma_regions_wf();
            if best is None {
                assert forall|g: u64| g >= cursor implies !usable_at(memory_map@, g) by {
                    if usable_at(memory_map@, g) {
                        let k = choose|k: int|
                            0 <= k < memory_map@.len() && (#[trigger] memory_map@[k]).region_type
                                == MemoryRegionType::Usable && memory_map@[k].range.start_frame
                                <= g < memory_map@[k].range.end_frame;
                        assert(memory_map@[k].range.end_frame <= cursor);
                    }
                }
            }
        }
        *self = AreaCore { memory_map, next_free_frame: new_cursor, current_region: best };
    }

    /// The end of a Kernel or Bootloader region containing `g`, if any.
    fn find_skip(&self, g: u64) -> (r: Option<u64>)
        ensures
            match r {
                Some(e) => skipped_at(self.map_core_spec(), g) && exists|i: int|
                    0 <= i < self.map_core_spec().len() && ((
                    #[trigger] self.map_core_spec()[i]).region_type == MemoryRegionType::Kernel
                        || self.map_core_spec()[i].region_type == MemoryRegionType::Bootloader)
                        && self.map_core_spec()[i].range.start_frame <= g
                        && self.map_core_spec()[i].range.end_frame == e && g < e,
                None => !skipped_at(self.map_core_spec(), g),
            },
    {
        let mut i: usize = 0;
        while i < self.memory_map.len()
            invariant
                i <= self.map_core_spec().len(),
                forall|k: int|
                    0 <= k < i ==> !(((#[trigger] self.map_core_spec()[k]).region_type
                        == MemoryRegionType::Kernel || self.map_core_spec()[k].region_type
                        == MemoryRegionType::Bootloader)
                        && self.map_core_spec()[k].range.start_frame <= g
                        < self.map_core_spec()[k].range.end_frame),
            decreases self.map_core_spec().len() - i,
        {
            let region = self.memory_map.region_at(i);
            let hit = match region.region_type {
                MemoryRegionType::Kernel => true,
                MemoryRegionType::Bootloader => true,
                _ => false,
            };
            if hit && region.range.start_frame <= g && g < region.range.end_frame {
                return Some(region.range.end_frame);
            }
            i = i + 1;
        }
        proof {
            if skipped_at(self.map_core_spec(), g) {
                let k = choose|k: int|
                    0 <= k < self.map_core_spec().len() && ((#[trigger] self.map_core_spec()[k]).region_type
                        == MemoryRegionType::Kernel || self.map_core_spec()[k].region_type
                        == MemoryRegionType::Bootloader)
                        && self.map_core_spec()[k].range.start_frame <= g
                        < self.map_core_spec()[k].range.end_frame;
            }
        }
        None
    }
}

/// Physical frame supply from the Usable regions of a typed memory map.
pub struct AreaFrameAllocator<T> {
    core: AreaCore,
    frame_set: T,
}

impl<T> AreaFrameAllocator<T> {
    /// The map the allocator walks.
    pub closed spec fn map_spec(&self) -> Seq<MemoryRegion> {
        self.core.memory_map@
    }

    /// The next frame index the allocator will consider.
    pub closed spec fn cursor_spec(&self) -> u64 {
        self.core.next_free_frame@
    }

    /// The injected bookkeeping set.
    pub closed spec fn set_spec(&self) -> T {
        self.frame_set
    }

    /// The currently selected region.
    pub closed spec fn current_spec(&self) -> Option<MemoryRegion> {
        self.core.current_region
    }
}

impl<T: FrameSetMut> AreaFrameAllocator<T> {
    /// An allocator over the given map, recording into `frame_set`; its
    /// cursor starts at the first frame the map allows.
    pub fn new(memory_map: MemoryMap, frame_set: T) -> (r: AreaFrameAllocator<T>)
        ensures
            r.map_spec() == memory_map@,
            r.set_spec() == frame_set,
            forall|g: u64| #[trigger]
                r.avail().contains(g) == allocatable(memory_map@, 0, g),
            forall|n: nat| #[trigger]
                supply_ok(memory_map@, 0, frame_set.spare(), n) ==> r.can_supply(n),
    {
        proof {
            use_type_invariant(&memory_map);
            memory_map.lemma_regions_wf();
        }
        let best = scan_region(&memory_map, 0);
        let start_frame = match best {
            Some(r) => {
                proof {
                    use_type_invariant(&memory_map);
                    memory_map.lemma_regions_wf();
                    let k = choose|k: int| 0 <= k < memory_map@.len() && memory_map@[k] == r;
                    assert(region_wf(memory_map@[k]));
                }
                Frame::new(r.range.start_frame)
            },
            None => Frame::containing_addr(0),
        };
        proof {
            if best is Some {
                let r = best.unwrap();
                assert forall|h: u64| 0 <= h < start_frame@ implies !usable_at(memory_map@, h) by {
                    if usable_at(memory_map@, h) {
                        let k = choose|k: int|
                            0 <= k < memory_map@.len() && (#[trigger] memory_map@[k]).region_type
                                == MemoryRegionType::Usable && memory_map@[k].range.start_frame
                                <= h < memory_map@[k].range.end_frame;
                        assert(memory_map@[k].range.end_frame > 0);
                        assert(r.range.start_frame <= memory_map@[k].range.start_frame);
                    }
                }
            }
        }
        proof {
            use_type_invariant(&memory_map);
            memory_map.lemma_regions_wf();
            if best is None {
                assert forall|g: u64| g >= 0 implies !usable_at(memory_map@, g) by {
                    if usable_at(memory_map@, g) {
                        let k = choose|k: int|
                            0 <= k < memory_map@.len() && (#[trigger] memory_map@[k]).region_type
                                == MemoryRegionType::Usable && memory_map@[k].range.start_frame
                                <= g < memory_map@[k].range.end_frame;
                        assert(memory_map@[k].range.end_frame <= 0);
                    }
                }
            }
        }
        let core = AreaCore { memory_map, next_free_frame: start_frame, current_region: best };
        let allocator = AreaFrameAllocator { core, frame_set };
        proof {
            lemma_cursor_advance_keeps(allocator.map_spec(), 0, allocator.cursor_spec());
            assert forall|g: u64| #[trigger]
                allocator.avail().contains(g) == allocatable(memory_map@, 0, g) by {
                lemma_cursor_advance_pointwise(allocator.map_spec(), 0, allocator.cursor_spec(), g);
            }
        }
        allocator
    }

    /// Move the cursor to `f` and pick the matching region; frames below
    /// `f` will never be handed out afterwards.
    pub fn set_start_frame(&mut self, f: Frame)
        ensures
            final(self).map_spec() == old(self).map_spec(),
            final(self).set_spec() == old(self).set_spec(),
            forall|g: u64| #[trigger]
                final(self).avail().contains(g) == allocatable(old(self).map_spec(), f@, g),
            forall|n: nat| #[trigger]
                supply_ok(old(self).map_spec(), f@, old(self).set_spec().spare(), n) ==> final(self).can_supply(n),
    {
        self.core.retarget(f);
        proof {
            lemma_cursor_advance_keeps(self.map_spec(), f@, self.cursor_spec());
            assert forall|g: u64| #[trigger]
                self.avail().contains(g) == allocatable(self.map_spec(), f@, g) by {
                lemma_cursor_advance_pointwise(self.map_spec(), f@, self.cursor_spec(), g);
            }
        }
    }

    /// The cursor: the next frame index the allocator will consider.
    pub fn next_free(self) -> (r: Frame)
        ensures
            r@ == self.cursor_spec(),
    {
        self.core.next_free_frame
    }

}

/// A cursor that only skipped unusable frames changes nothing allocatable.
proof fn lemma_cursor_advance_pointwise(map: Seq<MemoryRegion>, c0: u64, c1: u64, g: u64)
    requires
        c0 <= c1,
        forall|h: u64| c0 <= h < c1 ==> !usable_at(map, h),
    ensures
        allocatable(map, c1, g) == allocatable(map, c0, g),
{
}

/// And the supply guarantee carries over as well.
proof fn lemma_cursor_advance_keeps(map: Seq<MemoryRegion>, c0: u64, c1: u64)
    requires
        c0 <= c1,
        forall|h: u64| c0 <= h < c1 ==> !usable_at(map, h),
    ensures
        forall|s: nat, n: nat| #[trigger]
            supply_ok(map, c0, s, n) ==> supply_ok(map, c1, s, n),
{
    assert forall|s: nat, n: nat| #[trigger] supply_ok(map, c0, s, n) implies supply_ok(
        map,
        c1,
        s,
        n,
    ) by {
        lemma_cursor_advance_supply(map, c0, c1, s, n);
    }
}

proof fn lemma_cursor_advance_supply(map: Seq<MemoryRegion>, c0: u64, c1: u64, s: nat, n: nat)
    requires
        c0 <= c1,
        forall|h: u64| c0 <= h < c1 ==> !usable_at(map, h),
        supply_ok(map, c0, s, n),
    ensures
        supply_ok(map, c1, s, n),
    decreases n,
{
    if n > 0 {
        let g0 = choose|g: u64| is_next(map, c0, g);
        assert(is_next(map, c0, g0));
        assert(allocatable(map, c1, g0)) by {
            assert(!(c0 <= g0 < c1));
        }
        assert(is_next(map, c1, g0)) by {
            assert forall|h: u64| h < g0 implies !allocatable(map, c1, h) by {
                lemma_cursor_advance_pointwise(map, c0, c1, h);
            }
        }
        assert(has_next(map, c1));
        let g1 = choose|g: u64| is_next(map, c1, g);
        lemma_is_next_unique(map, c1, g0, g1);
        assert(supply_ok(map, ((g0 + 1) as u64), (s - 1) as nat, (n - 1) as nat));
    }
}

/// The supply guarantee covers every smaller demand.
proof fn lemma_supply_ok_le(map: Seq<MemoryRegion>, cursor: u64, s: nat, n: nat, k: nat)
    requires
        supply_ok(map, cursor, s, n),
        k <= n,
    ensures
        supply_ok(map, cursor, s, k),
    decreases n,
{
    if k > 0 {
        let g = choose|g: u64| is_next(map, cursor, g);
        lemma_supply_ok_le(map, ((g + 1) as u64), (s - 1) as nat, (n - 1) as nat, (k - 1) as nat);
    }
}

/// Largest end frame of any region, bounding how far the cursor can move.
spec fn map_max_end(map: Seq<MemoryRegion>) -> int
    decreases map.len(),
{
    if map.len() == 0 {
        0
    } else {
        if map.last().range.end_frame as int > map_max_end(map.drop_last()) {
            map.last().range.end_frame as int
        } else {
            map_max_end(map.drop_last())
        }
    }
}

proof fn lemma_map_max_end(map: Seq<MemoryRegion>, i: int)
    requires
        0 <= i < map.len(),
    ensures
        map[i].range.end_frame <= map_max_end(map),
    decreases map.len(),
{
    if i + 1 < map.len() {
        lemma_map_max_end(map.drop_last(), i);
    }
}

impl<T: FrameSetMut> FrameAllocator for AreaFrameAllocator<T> {
    open spec fn avail(&self) -> Set<u64> {
        Set::new(|g: u64| allocatable(self.map_spec(), self.cursor_spec(), g))
    }

    open spec fn picks(&self, f: u64) -> bool {
        is_next(self.map_spec(), self.cursor_spec(), f)
    }

    open spec fn ascending(&self) -> bool {
        true
    }

    open spec fn held_seq(&self) -> Seq<u64> {
        self.set_spec().frames_seq()
    }

    open spec fn alloc_held(&self, f: u64) -> Seq<u64> {
        self.set_spec().add_seq(f)
    }

    open spec fn released_avail(&self, f: u64) -> Set<u64> {
        self.avail()
    }

    open spec fn released_held(&self, f: u64) -> Seq<u64> {
        self.set_spec().remove_seq(f)
    }

    open spec fn released_supply(&self, f: u64, n: nat) -> bool {
        self.can_supply(n)
    }

    open spec fn can_supply(&self, n: nat) -> bool {
        supply_ok(self.map_spec(), self.cursor_spec(), self.set_spec().spare(), n)
    }

    open spec fn can_release(&self, f: u64) -> bool {
        self.set_spec().remove_ok(f)
    }

    proof fn lemma_can_supply_weaken(&self, n: nat, k: nat) {
        lemma_supply_ok_le(self.map_spec(), self.cursor_spec(), self.set_spec().spare(), n, k);
    }

    fn allocate(&mut self) -> (r: Option<Frame>) {
        proof {
            use_type_invariant(&self.core);
        }
        let ghost map0 = self.map_spec();
        let ghost c0 = self.cursor_spec();
        let ghost set0 = self.set_spec();
        let ghost bound = map_max_end(map0);
        loop
            invariant
                bound == map_max_end(map0),
                map0 == old(self).map_spec(),
                c0 == old(self).cursor_spec(),
                set0 == old(self).set_spec(),
                self.map_spec() == map0,
                self.set_spec() == set0,
                c0 <= self.cursor_spec(),
                forall|h: u64| c0 <= h < self.cursor_spec() ==> !allocatable(map0, c0, h),
            decreases
                    (if self.cursor_spec() < bound {
                        2 * (bound - self.cursor_spec())
                    } else {
                        0
                    }) + (match self.current_spec() {
                        Some(region) => if self.cursor_spec() >= region.range.end_frame {
                            1int
                        } else {
                            0int
                        },
                        None => 0int,
                    }),
        {
            proof {
                use_type_invariant(&self.core);
            }
            let area = match self.core.current_region {
                None => {
                    proof {
                        assert forall|g: u64| self.avail().contains(g) implies old(
                            self,
                        ).avail().contains(g) by {
                            assert(allocatable(map0, self.cursor_spec(), g));
                            assert(c0 <= g);
                        }
                        assert(!supply_ok(map0, c0, set0.spare(), 1)) by {
                            if supply_ok(map0, c0, set0.spare(), 1) {
                                let g = choose|g2: u64| is_next(map0, c0, g2);
                                assert(allocatable(map0, c0, g));
                                if g >= self.cursor_spec() {
                                    assert(usable_at(map0, g));
                                    let k = choose|k: int|
                                        0 <= k < map0.len() && (#[trigger] map0[k]).region_type
                                            == MemoryRegionType::Usable
                                            && map0[k].range.start_frame <= g
                                            < map0[k].range.end_frame;
                                    assert(map0[k].range.end_frame <= self.cursor_spec());
                                } else {
                                    assert(!allocatable(map0, c0, g));
                                }
                            }
                        }
                        assert(self.set_spec() == old(self).set_spec());
                        assert(!old(self).can_supply(1));
                        assert(self.avail() <= old(self).avail());
                        assert forall|g: u64| old(self).can_release(g) implies
                            #[trigger] self.can_release(g) by {}
                    }
                    return None;
                },
                Some(area) => area,
            };
            let cursor = self.core.next_free_frame.index();
            if cursor >= area.range.end_frame {
                let ghost cpre = self.cursor_spec();
                self.core.choose_next_area();
                proof {
                    assert forall|h: u64| c0 <= h < self.cursor_spec() implies !allocatable(
                        map0,
                        c0,
                        h,
                    ) by {
                        if h >= cpre {
                            assert(!usable_at(map0, h));
                        }
                    }
                    use_type_invariant(&self.core);
                    match self.current_spec() {
                        Some(region) => {
                            let k = choose|k: int|
                                0 <= k < map0.len() && map0[k] == region;
                            lemma_map_max_end(map0, k);
                        },
                        None => {},
                    }
                }
                continue ;
            }
            proof {
                let k = choose|k: int| 0 <= k < map0.len() && map0[k] == area;
                lemma_map_max_end(map0, k);
            }
            match self.core.find_skip(cursor) {
                Some(skip_end) => {
                    proof {
                        let k = choose|k: int|
                            0 <= k < map0.len() && ((#[trigger] map0[k]).region_type
                                == MemoryRegionType::Kernel || map0[k].region_type
                                == MemoryRegionType::Bootloader)
                                && map0[k].range.start_frame <= cursor
                                && map0[k].range.end_frame == skip_end && cursor < skip_end;
                        lemma_map_max_end(map0, k);
                        assert(skip_end <= MAX_ENTRY_FRAME) by {
                            assert(region_wf(map0[k]));
                        }
                        assert forall|h: u64| cursor <= h < skip_end implies skipped_at(
                            map0,
                            h,
                        ) by {
                            assert(map0[k].range.start_frame <= h < map0[k].range.end_frame);
                        }
                    }
                    self.core.next_free_frame = Frame::new(skip_end);
                    continue ;
                },
                None => {
                    let frame = Frame::new(cursor);
                    let add_result = self.frame_set.add(frame);
                    match add_result {
                        Err(_) => {
                            proof {
                                assert(set0.spare() == 0);
                                assert(!supply_ok(map0, c0, set0.spare(), 1));
                                assert forall|g: u64| self.avail().contains(g) implies old(
                                    self,
                                ).avail().contains(g) by {
                                    assert(allocatable(map0, self.cursor_spec(), g));
                                    assert(c0 <= g);
                                }
                                assert(self.set_spec() == old(self).set_spec());
                                assert(!old(self).can_supply(1));
                                assert(self.avail() <= old(self).avail());
                                assert forall|g: u64| old(self).can_release(g) implies
                                    #[trigger] self.can_release(g) by {}
                            }
                            return None;
                        },
                        Ok(_) => {
                            proof {
                                assert(allocatable(map0, c0, cursor)) by {
                                    assert(usable_at(map0, cursor)) by {
                                        let k = choose|k: int|
                                            0 <= k < map0.len() && map0[k] == area;
                                        assert(map0[k].region_type == MemoryRegionType::Usable
                                            && map0[k].range.start_frame <= cursor
                                            < map0[k].range.end_frame);
                                    }
                                }
                                assert(is_next(map0, c0, cursor));
                            }
                            self.core.next_free_frame = Frame::new(cursor + 1);
                            proof {
                                let m = *self;
                                assert(m.avail() <= old(self).avail().remove(cursor)) by {
                                    assert forall|g: u64| m.avail().contains(g) implies old(
                                        self,
                                    ).avail().remove(cursor).contains(g) by {}
                                }
                                assert(m.can_release(frame@));
                                assert forall|n: nat|
                                    supply_ok(map0, c0, set0.spare(), n + 1) implies #[trigger] m.can_supply(n) by {
                                    let g = choose|g2: u64| is_next(map0, c0, g2);
                                    lemma_is_next_unique(map0, c0, g, cursor);
                                    lemma_supply_ok_mono(
                                        map0,
                                        ((cursor + 1) as u64),
                                        (set0.spare() - 1) as nat,
                                        m.set_spec().spare(),
                                        n,
                                    );
                                }
                            }
                            return Some(frame);
                        },
                    }
                },
            }
        }
    }

    fn release(&mut self, frame: Frame) {
        proof {
            use_type_invariant(&self.core);
        }
        let result = self.frame_set.remove(frame.index());
        proof {
            assert forall|n: nat| old(self).can_supply(n) implies #[trigger] self.can_supply(
                n,
            ) by {
                lemma_supply_ok_mono(
                    self.map_spec(),
                    self.cursor_spec(),
                    old(self).set_spec().spare(),
                    self.set_spec().spare(),
                    n,
                );
            }
        }
    }
}

/// The Usable region with the smallest base among those that still reach
/// past `cursor`, or nothing if the map is exhausted above `cursor`.
fn scan_region(map: &MemoryMap, cursor: u64) -> (r: Option<MemoryRegion>)
    ensures
        match r {
            Some(region) => {
                &&& region.region_type == MemoryRegionType::Usable
                &&& exists|i: int| 0 <= i < map@.len() && map@[i] == region
                &&& cursor < region.range.end_frame
                &&& region.range.start_frame < region.range.end_frame
                &&& forall|k: int|
                    0 <= k < map@.len() && (#[trigger] map@[k]).region_type
                        == MemoryRegionType::Usable && cursor < map@[k].range.end_frame
                        && map@[k].range.start_frame < map@[k].range.end_frame
                        ==> region.range.start_frame <= map@[k].range.start_frame
            },
            None => forall|k: int|
                0 <= k < map@.len() && (#[trigger] map@[k]).region_type
                    == MemoryRegionType::Usable && map@[k].range.start_frame
                    < map@[k].range.end_frame ==> map@[k].range.end_frame <= cursor,
        },
{
    let mut best: Option<MemoryRegion> = None;
    let mut i: usize = 0;
    while i < map.len()
        invariant
            i <= map@.len(),
            match best {
                None => forall|k: int|
                    0 <= k < i && (#[trigger] map@[k]).region_type == MemoryRegionType::Usable
                        && map@[k].range.start_frame < map@[k].range.end_frame
                        ==> map@[k].range.end_frame <= cursor,
                Some(b) => {
                    &&& b.region_type == MemoryRegionType::Usable
                    &&& exists|k: int| 0 <= k < map@.len() && map@[k] == b
                    &&& cursor < b.range.end_frame
                    &&& b.range.start_frame < b.range.end_frame
                    &&& forall|k: int|
                        0 <= k < i && (#[trigger] map@[k]).region_type
                            == MemoryRegionType::Usable && cursor < map@[k].range.end_frame
                            && map@[k].range.start_frame < map@[k].range.end_frame
                            ==> b.range.start_frame <= map@[k].range.start_frame
                },
            },
        decreases map@.len() - i,
    {
        let region = map.region_at(i);
        let qualifies = match region.region_type {
            MemoryRegionType::Usable => region.range.end_frame > cursor
                && region.range.start_frame < region.range.end_frame,
            _ => false,
        };
        if qualifies {
            let replace = match best {
                None => true,
                Some(b) => region.range.start_frame < b.range.start_frame,
            };
            if replace {
                best = Some(region);
            }
        }
        i = i + 1;
    }
    best
}

} // verus!
