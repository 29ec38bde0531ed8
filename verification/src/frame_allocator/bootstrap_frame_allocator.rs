//! A bare monotonically increasing frame counter, usable before any memory
//! map has been parsed. It has no region awareness and releasing is a no-op.

use vstd::prelude::*;
use crate::frame::Frame;
use crate::frame_allocator::FrameAllocator;
use crate::paging::entry::MAX_ENTRY_FRAME;

verus! {

/// Hands out consecutive frames from a starting point, never reusing any.
pub struct BootstrapFrameAllocator {
    next_free_frame: u64,
}

impl BootstrapFrameAllocator {
    /// An allocator whose first answer is `starting_frame`.
    pub fn new(starting_frame: Frame) -> (r: BootstrapFrameAllocator)
        ensures
            r.cursor() == starting_frame@,
    {
        BootstrapFrameAllocator { next_free_frame: starting_frame.index() }
    }

    /// The next frame index the allocator will hand out.
    pub closed spec fn cursor(&self) -> u64 {
        self.next_free_frame
    }
}

impl FrameAllocator for BootstrapFrameAllocator {
    open spec fn avail(&self) -> Set<u64> {
        Set::new(|g: u64| self.cursor() <= g < MAX_ENTRY_FRAME)
    }

    open spec fn picks(&self, f: u64) -> bool {
        f == self.cursor()
    }

    open spec fn ascending(&self) -> bool {
        true
    }

    open spec fn held_seq(&self) -> Seq<u64> {
        Seq::empty()
    }

    open spec fn alloc_held(&self, f: u64) -> Seq<u64> {
        Seq::empty()
    }

    open spec fn released_avail(&self, f: u64) -> Set<u64> {
        self.avail()
    }

    open spec fn released_held(&self, f: u64) -> Seq<u64> {
        Seq::empty()
    }

    open spec fn released_supply(&self, f: u64, n: nat) -> bool {
        self.can_supply(n)
    }

    open spec fn can_supply(&self, n: nat) -> bool {
        self.cursor() + n <= MAX_ENTRY_FRAME
    }

    open spec fn can_release(&self, f: u64) -> bool {
        true
    }

    proof fn lemma_can_supply_weaken(&self, n: nat, k: nat) {
    }

    fn allocate(&mut self) -> (r: Option<Frame>) {
        if self.next_free_frame >= MAX_ENTRY_FRAME {
            proof {
                assert(self.avail() =~= Set::<u64>::empty());
            }
            return None;
        }
        let frame = Frame::new(self.next_free_frame);
        self.next_free_frame = self.next_free_frame + 1;
        proof {
            assert(self.avail() =~= old(self).avail().remove(frame@));
        }
        Some(frame)
    }

    fn release(&mut self, frame: Frame) {
    }
}

} // verus!
