//! An allocator that never allocates, for call sites that structurally need
//! an allocator but must not actually pull frames.

use vstd::prelude::*;
use crate::frame::Frame;
use crate::frame_allocator::FrameAllocator;

verus! {

/// Always answers `None` and silently drops released frames.
pub struct NopAllocator;

impl FrameAllocator for NopAllocator {
    open spec fn avail(&self) -> Set<u64> {
        Set::empty()
    }

    open spec fn picks(&self, f: u64) -> bool {
        false
    }

    open spec fn ascending(&self) -> bool {
        true
    }

    open spec fn held_seq(&self) -> Seq<u64> {
        Seq::empty()
    }

    open spec fn alloc_held(&self, f: u64) -> Seq<u64> {
        Seq::empty()
    }

    open spec fn released_avail(&self, f: u64) -> Set<u64> {
        Set::empty()
    }

    open spec fn released_held(&self, f: u64) -> Seq<u64> {
        Seq::empty()
    }

    open spec fn released_supply(&self, f: u64, n: nat) -> bool {
        n == 0
    }

    open spec fn can_supply(&self, n: nat) -> bool {
        n == 0
    }

    open spec fn can_release(&self, f: u64) -> bool {
        true
    }

    proof fn lemma_can_supply_weaken(&self, n: nat, k: nat) {
    }

    fn allocate(&mut self) -> (r: Option<Frame>) {
        None
    }

    fn release(&mut self, frame: Frame) {
    }
}

} // verus!
