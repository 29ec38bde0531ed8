//! A growable, heap-backed frame set, for use once a heap exists. It should
//! not record long-lived allocation data outside bootstrapping.

use vstd::prelude::*;
use crate::frame::Frame;
use crate::frame_set::{FrameSet, FrameSetMut, first_pos, lemma_first_pos, lemma_first_pos_of_scan};

verus! {

/// Errors of the vector-backed frame set.
#[derive(Debug, Clone, Copy, PartialEq, Eq, Structural)]
pub enum VecFrameSetErr {
    /// `remove` was asked for an index the set does not hold.
    InvalidFrame { index: u64 },
}

/// A frame set backed by a growable vector.
#[derive(Debug)]
pub struct VecFrameSet {
    frames: Vec<Frame>,
}

impl VecFrameSet {
    /// A growable set always has room for one more frame.
    pub proof fn lemma_always_room(&self)
        ensures
            self.spare() > 0,
    {
        vstd::std_specs::vec::axiom_spec_len(&self.frames);
    }

    /// An empty set.
    pub fn new() -> (r: VecFrameSet)
        ensures
            r.frames_seq() == Seq::<u64>::empty(),
    {
        let r = VecFrameSet { frames: Vec::new() };
        proof {
            assert(r.frames_seq() =~= Seq::<u64>::empty());
        }
        r
    }
}

impl FrameSet for VecFrameSet {
    closed spec fn frames_seq(&self) -> Seq<u64> {
        self.frames@.map_values(|f: Frame| f@)
    }

    fn contains(&self, frame: &Frame) -> (r: bool) {
        let mut i: usize = 0;
        while i < self.frames.len()
            invariant
                i <= self.frames@.len(),
                forall|j: int| 0 <= j < i ==> self.frames_seq()[j] != frame@,
            decreases self.frames@.len() - i,
        {
            if self.frames[i].index() == frame.index() {
                proof {
                    assert(self.frames_seq()[i as int] == frame@);
                }
                return true;
            }
            i = i + 1;
        }
        proof {
            if self.frames_seq().contains(frame@) {
                let k = choose|k: int|
                    0 <= k < self.frames_seq().len() && self.frames_seq()[k] == frame@;
                assert(self.frames_seq()[k] != frame@);
            }
        }
        false
    }
}

impl FrameSetMut for VecFrameSet {
    type Err = VecFrameSetErr;

    closed spec fn spare(&self) -> nat {
        (0x10000000000000000 - self.frames@.len()) as nat
    }

    open spec fn spare_after_add(&self) -> nat {
        (self.spare() - 1) as nat
    }

    open spec fn add_seq(&self, f: u64) -> Seq<u64> {
        self.frames_seq().push(f)
    }

    open spec fn remove_ok(&self, index: u64) -> bool {
        self.frames_seq().contains(index)
    }

    open spec fn remove_seq(&self, index: u64) -> Seq<u64> {
        self.frames_seq().remove(first_pos(self.frames_seq(), index))
    }

    open spec fn removed_frame(&self, index: u64) -> u64 {
        index
    }

    open spec fn full_error(&self) -> VecFrameSetErr {
        VecFrameSetErr::InvalidFrame { index: 0 }
    }

    open spec fn absent_error(&self, index: u64) -> VecFrameSetErr {
        VecFrameSetErr::InvalidFrame { index }
    }

    fn add(&mut self, frame: Frame) -> (r: Result<(), VecFrameSetErr>) {
        proof {
            vstd::std_specs::vec::axiom_spec_len(&self.frames);
        }
        self.frames.push(frame);
        proof {
            assert(self.frames_seq() =~= old(self).add_seq(frame@));
            assert(self.frames_seq().contains(frame@)) by {
                assert(self.frames_seq().last() == frame@);
            }
            assert forall|g: u64| old(self).frames_seq().contains(g) implies
                #[trigger] self.frames_seq().contains(g) by {
                let k = choose|k: int|
                    0 <= k < old(self).frames_seq().len() && old(self).frames_seq()[k] == g;
                assert(self.frames_seq()[k] == g);
            }
        }
        Ok(())
    }

    fn remove(&mut self, frame_index: u64) -> (r: Result<Frame, VecFrameSetErr>) {
        let ghost s = self.frames_seq();
        let mut i: usize = 0;
        while i < self.frames.len()
            invariant
                i <= self.frames@.len(),
                s == self.frames_seq(),
                *self == *old(self),
                forall|j: int| 0 <= j < i ==> s[j] != frame_index,
            decreases self.frames@.len() - i,
        {
            if self.frames[i].index() == frame_index {
                proof {
                    assert(s[i as int] == self.frames@[i as int]@);
                    assert(s[i as int] == frame_index);
                    lemma_first_pos_of_scan(s, frame_index, i as int);
                    assert(s.contains(frame_index)) by {
                        assert(s[i as int] == frame_index);
                    }
                }
                let f = self.frames.remove(i);
                proof {
                    assert(self.frames_seq() =~= s.remove(i as int));
                }
                return Ok(f);
            }
            i = i + 1;
        }
        proof {
            if s.contains(frame_index) {
                let k = choose|k: int| 0 <= k < s.len() && s[k] == frame_index;
                assert(s[k] != frame_index);
            }
        }
        Err(VecFrameSetErr::InvalidFrame { index: frame_index })
    }
}

} // verus!
