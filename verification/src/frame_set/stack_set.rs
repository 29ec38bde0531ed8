//! A fixed-capacity frame set for use before any heap exists: the caller
//! provides the backing storage up front, and a full set reports `Capacity`.

use vstd::prelude::*;
use crate::frame::Frame;
use crate::frame_set::{FrameSet, FrameSetMut, first_pos, lemma_first_pos, lemma_first_pos_of_scan};

verus! {

/// Errors of the fixed-capacity frame set.
#[derive(Debug, Clone, Copy, PartialEq, Eq, Structural)]
pub enum StackFrameSetError {
    /// `remove` was asked for an index the set does not hold.
    InvalidFrame { index: u64 },
    /// `add` found no room left.
    Capacity,
}

/// A frame set backed by caller-provided fixed storage; entries up to
/// `current_index` are live, the rest is spare room.
#[derive(Debug)]
pub struct StackFrameSet {
    ary: Vec<Frame>,
    current_index: usize,
}

impl StackFrameSet {
    /// A set whose capacity is the length of the given backing storage; the
    /// storage's existing contents are treated as garbage.
    pub fn new(ary: Vec<Frame>) -> (r: StackFrameSet)
        ensures
            r.frames_seq() == Seq::<u64>::empty(),
            r.spare() == ary@.len(),
    {
        let r = StackFrameSet { ary, current_index: 0 };
        proof {
            assert(r.frames_seq() =~= Seq::<u64>::empty());
        }
        r
    }

    #[verifier::type_invariant]
    closed spec fn type_wf(&self) -> bool {
        self.current_index <= self.ary@.len()
    }
}

impl FrameSet for StackFrameSet {
    closed spec fn frames_seq(&self) -> Seq<u64> {
        self.ary@.map_values(|f: Frame| f@).take(self.current_index as int)
    }

    fn contains(&self, frame: &Frame) -> (r: bool) {
        proof {
            use_type_invariant(self);
        }
        let mut i: usize = 0;
        let end = self.current_index;
        while i < end
            invariant
                end <= self.ary@.len(),
                end == self.current_index,
                i <= end,
                forall|j: int| 0 <= j < i ==> self.frames_seq()[j] != frame@,
            decreases end - i,
        {
            if self.ary[i].index() == frame.index() {
                proof {
                    assert(self.frames_seq()[i as int] == frame@);
                }
                return true;
            }
            i = i + 1;
        }
        false
    }
}

impl FrameSetMut for StackFrameSet {
    type Err = StackFrameSetError;

    closed spec fn spare(&self) -> nat {
        (self.ary@.len() - self.current_index) as nat
    }

    open spec fn spare_after_add(&self) -> nat {
        (self.spare() - 1) as nat
    }

    open spec fn add_seq(&self, f: u64) -> Seq<u64> {
        self.frames_seq().push(f)
    }

    open spec fn remove_ok(&self, index: u64) -> bool {
        self.frames_seq().contains(index)
    }

    open spec fn remove_seq(&self, index: u64) -> Seq<u64> {
        self.frames_seq().remove(first_pos(self.frames_seq(), index))
    }

    open spec fn removed_frame(&self, index: u64) -> u64 {
        index
    }

    open spec fn full_error(&self) -> StackFrameSetError {
        StackFrameSetError::Capacity
    }

    open spec fn absent_error(&self, index: u64) -> StackFrameSetError {
        StackFrameSetError::InvalidFrame { index }
    }

    fn add(&mut self, frame: Frame) -> (r: Result<(), StackFrameSetError>) {
        proof {
            use_type_invariant(&*self);
        }
        if self.current_index >= self.ary.len() {
            return Err(StackFrameSetError::Capacity);
        }
        let slot = &mut self.ary[self.current_index];
        *slot = frame;
        self.current_index = self.current_index + 1;
        proof {
            assert(self.frames_seq() =~= old(self).add_seq(frame@));
            assert(self.frames_seq().contains(frame@)) by {
                assert(self.frames_seq().last() == frame@);
            }
            assert forall|g: u64| old(self).frames_seq().contains(g) implies
                #[trigger] self.frames_seq().contains(g) by {
                let k = choose|k: int|
                    0 <= k < old(self).frames_seq().len() && old(self).frames_seq()[k] == g;
                assert(self.frames_seq()[k] == g);
            }
        }
        Ok(())
    }

    fn remove(&mut self, frame_index: u64) -> (r: Result<Frame, StackFrameSetError>) {
        proof {
            use_type_invariant(&*self);
        }
        let ghost s = self.frames_seq();
        let mut i: usize = 0;
        while i < self.current_index
            invariant
                self.current_index <= self.ary@.len(),
                i <= self.current_index,
                s == self.frames_seq(),
                *self == *old(self),
                forall|j: int| 0 <= j < i ==> s[j] != frame_index,
            decreases self.current_index - i,
        {
            if self.ary[i].index() == frame_index {
                proof {
                    assert(s[i as int] == frame_index);
                    lemma_first_pos_of_scan(s, frame_index, i as int);
                }
                let found = self.ary[i];
                // close the gap by shifting everything after `i` one place
                // down, in place
                let mut j: usize = i;
                while j + 1 < self.current_index
                    invariant
                        i <= j,
                        j < self.current_index,
                        self.current_index <= self.ary@.len(),
                        self.current_index == old(self).current_index,
                        self.ary@.len() == old(self).ary@.len(),
                        forall|k: int|
                            0 <= k < i || j < k < self.ary@.len() ==> self.ary@[k] == old(
                                self,
                            ).ary@[k],
                        forall|k: int| i <= k < j ==> self.ary@[k] == old(self).ary@[k + 1],
                    decreases self.current_index - j,
                {
                    let next = self.ary[j + 1];
                    let slot = &mut self.ary[j];
                    *slot = next;
                    j = j + 1;
                }
                self.current_index = self.current_index - 1;
                proof {
                    assert(self.frames_seq() =~= s.remove(i as int));
                }
                return Ok(found);
            }
            i = i + 1;
        }
        proof {
            if s.contains(frame_index) {
                let k = choose|k: int| 0 <= k < s.len() && s[k] == frame_index;
                assert(s[k] != frame_index);
            }
        }
        Err(StackFrameSetError::InvalidFrame { index: frame_index })
    }
}

} // verus!
