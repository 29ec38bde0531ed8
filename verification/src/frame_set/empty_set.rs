//! A frame set that silently accepts everything and holds nothing, for call
//! sites that must record nothing.

use vstd::prelude::*;
use crate::frame::Frame;
use crate::frame_set::{FrameSet, FrameSetMut};

verus! {

/// Holds no frames, accepts every `add`, and answers every `remove` with
/// the zero frame.
#[derive(Clone, Copy, Debug)]
pub struct EmptyFrameSet;

impl FrameSet for EmptyFrameSet {
    open spec fn frames_seq(&self) -> Seq<u64> {
        Seq::empty()
    }

    fn contains(&self, frame: &Frame) -> (r: bool) {
        false
    }
}

impl FrameSetMut for EmptyFrameSet {
    type Err = ();

    open spec fn spare(&self) -> nat {
        0x8000000000000000
    }

    open spec fn spare_after_add(&self) -> nat {
        self.spare()
    }

    open spec fn add_seq(&self, f: u64) -> Seq<u64> {
        Seq::empty()
    }

    open spec fn remove_ok(&self, index: u64) -> bool {
        true
    }

    open spec fn remove_seq(&self, index: u64) -> Seq<u64> {
        Seq::empty()
    }

    open spec fn removed_frame(&self, index: u64) -> u64 {
        0
    }

    open spec fn full_error(&self) -> () {
        ()
    }

    open spec fn absent_error(&self, index: u64) -> () {
        ()
    }

    fn add(&mut self, frame: Frame) -> (r: Result<(), ()>) {
        Ok(())
    }

    fn remove(&mut self, frame_index: u64) -> (r: Result<Frame, ()>) {
        Ok(Frame::containing_addr(0))
    }
}

} // verus!
