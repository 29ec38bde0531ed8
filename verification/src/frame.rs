//! Physical frames: page-sized units of physical memory, identified by index.

use vstd::prelude::*;
use crate::PAGE_SIZE;
use crate::bits::{range_seq, lemma_range_seq};
use crate::paging::PhysicalAddr;

verus! {

/// Largest frame index such that the frame's start address still fits in a
/// 64-bit address (`2^52`).
pub const MAX_FRAME_COUNT: u64 = 0x10000000000000;

/// A physical page frame: physical address divided by the page size.
#[derive(Debug, PartialEq, Eq, Structural, PartialOrd, Ord, Hash, Clone, Copy)]
pub struct Frame {
    index: u64,
}

impl View for Frame {
    type V = u64;

    closed spec fn view(&self) -> u64 {
        self.index
    }
}

impl Frame {
    #[verifier::type_invariant]
    pub closed spec fn type_wf(self) -> bool {
        self.index < MAX_FRAME_COUNT
    }

    /// Frame with the given index.
    pub fn new(index: u64) -> (r: Frame)
        requires
            index < MAX_FRAME_COUNT,
        ensures
            r@ == index,
    {
        Frame { index }
    }

    /// The frame holding the given physical address.
    pub fn containing_addr(addr: u64) -> (r: Frame)
        ensures
            r@ == addr / PAGE_SIZE,
    {
        Frame { index: addr / PAGE_SIZE }
    }

    /// Physical address of the frame's first byte.
    pub fn start_addr(&self) -> (r: PhysicalAddr)
        ensures
            r == self@ * PAGE_SIZE,
    {
        proof {
            use_type_invariant(self);
        }
        self.index * PAGE_SIZE
    }

    /// The consecutive frames from `start` to `end`, both inclusive.
    pub fn range_inclusive(start: Frame, end: Frame) -> (r: FrameIter)
        ensures
            r.remaining() == range_seq(start@ as nat, end@ as nat),
    {
        proof {
            use_type_invariant(&start);
            use_type_invariant(&end);
        }
        FrameIter { next_index: start.index, end_index: end.index }
    }

    /// The frame's index.
    pub fn index(&self) -> (r: u64)
        ensures
            r == self@,
    {
        self.index
    }

    /// Replace the frame's index.
    pub fn set_index(&mut self, new_index: u64)
        requires
            new_index < MAX_FRAME_COUNT,
        ensures
            final(self)@ == new_index,
    {
        self.index = new_index;
    }
}

/// Yields the consecutive frames of an inclusive range, in ascending order.
pub struct FrameIter {
    next_index: u64,
    end_index: u64,
}

impl FrameIter {
    #[verifier::type_invariant]
    closed spec fn type_wf(self) -> bool {
        self.next_index <= MAX_FRAME_COUNT && self.end_index < MAX_FRAME_COUNT
    }

    /// The frames not yet yielded, in the order they will come.
    pub closed spec fn remaining(&self) -> Seq<nat> {
        range_seq(self.next_index as nat, self.end_index as nat)
    }

    /// The next frame of the range, if one is left.
    pub fn next(&mut self) -> (r: Option<Frame>)
        ensures
            match r {
                Some(frame) => old(self).remaining().len() > 0 && frame@ == old(
                    self,
                ).remaining()[0] && final(self).remaining() == old(self).remaining().drop_first(),
                None => old(self).remaining().len() == 0 && final(self).remaining() == old(
                    self,
                ).remaining(),
            },
    {
        proof {
            use_type_invariant(&*self);
        }
        proof {
            lemma_range_seq(self.next_index as nat, self.end_index as nat);
        }
        if self.next_index > self.end_index {
            return None;
        }
        let frame = Frame { index: self.next_index };
        self.next_index = self.next_index + 1;
        Some(frame)
    }
}

} // verus!
