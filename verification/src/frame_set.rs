//! Bookkeeping of which frames are owned, independent of allocation policy.

use vstd::prelude::*;
use crate::frame::Frame;

pub mod empty_set;
pub mod stack_set;
pub mod vec_set;

pub use self::empty_set::EmptyFrameSet;
pub use self::stack_set::{StackFrameSet, StackFrameSetError};
pub use self::vec_set::{VecFrameSet, VecFrameSetErr};

verus! {

/// Read-only view of a collection of owned frames.
pub trait FrameSet: Sized {
    /// The indices of the frames held, in storage order.
    spec fn frames_seq(&self) -> Seq<u64>;

    /// Whether the collection holds `frame`.
    fn contains(&self, frame: &Frame) -> (r: bool)
        ensures
            r == self.frames_seq().contains(frame@),
    ;
}

/// A collection of owned frames that can grow and shrink.
pub trait FrameSetMut: FrameSet {
    /// The error type of the two fallible operations.
    type Err;

    /// How many more frames are guaranteed to fit.
    spec fn spare(&self) -> nat;

    /// The spare room left after a successful `add`.
    spec fn spare_after_add(&self) -> nat;

    /// The contents after a successful `add`.
    spec fn add_seq(&self, f: u64) -> Seq<u64>;

    /// Whether `remove` of this index succeeds.
    spec fn remove_ok(&self, index: u64) -> bool;

    /// The contents after a successful `remove`.
    spec fn remove_seq(&self, index: u64) -> Seq<u64>;

    /// The index of the frame a successful `remove` hands back.
    spec fn removed_frame(&self, index: u64) -> u64;

    /// The error `add` reports when the collection is full.
    spec fn full_error(&self) -> Self::Err;

    /// The error `remove` reports for an absent index.
    spec fn absent_error(&self, index: u64) -> Self::Err;

    /// Record `frame` as owned.
    fn add(&mut self, frame: Frame) -> (r: Result<(), Self::Err>)
        ensures
            old(self).spare() > 0 ==> r is Ok && final(self).frames_seq() == old(self).add_seq(
                frame@,
            ) && final(self).spare() == old(self).spare_after_add() && final(self).spare() + 1
                >= old(self).spare() && final(self).remove_ok(frame@) && (forall|g: u64|
                old(self).remove_ok(g) ==> #[trigger] final(self).remove_ok(g)),
            old(self).spare() == 0 ==> (r matches Err(e) && e == old(self).full_error()) && *final(self) == *old(self),
    ;

    /// Forget the frame with the given index and hand it back.
    fn remove(&mut self, frame_index: u64) -> (r: Result<Frame, Self::Err>)
        ensures
            old(self).remove_ok(frame_index) ==> (r matches Ok(f) && f@ == old(self).removed_frame(frame_index)) && final(self).frames_seq() == old(self).remove_seq(
                frame_index,
            ) && final(self).spare() >= old(self).spare(),
            !old(self).remove_ok(frame_index) ==> (r matches Err(e) && e == old(self).absent_error(frame_index)) && *final(self) == *old(self),
    ;
}

/// Position of the first occurrence of `x` in `s`, or `-1` if there is none.
pub open spec fn first_pos(s: Seq<u64>, x: u64) -> int
    decreases s.len(),
{
    if s.len() == 0 {
        -1
    } else if s[0] == x {
        0
    } else {
        if first_pos(s.drop_first(), x) < 0 {
            -1
        } else {
            first_pos(s.drop_first(), x) + 1
        }
    }
}

/// `first_pos` finds exactly the first occurrence.
pub proof fn lemma_first_pos(s: Seq<u64>, x: u64)
    ensures
        first_pos(s, x) >= 0 <==> s.contains(x),
        first_pos(s, x) >= 0 ==> first_pos(s, x) < s.len() && s[first_pos(s, x)] == x && (forall|
            j: int,
        |
            0 <= j < first_pos(s, x) ==> s[j] != x),
    decreases s.len(),
{
    if s.len() > 0 {
        lemma_first_pos(s.drop_first(), x);
        if s[0] == x {
            assert(s.contains(x)) by {
                assert(s[0] == x);
            }
        }
        if s[0] != x {
            assert forall|j: int| 0 <= j < s.drop_first().len() implies s.drop_first()[j] == s[j
                + 1] by {}
            let p = first_pos(s, x);
            if p >= 0 {
                assert(s.drop_first()[p - 1] == x);
                assert(s[p] == x);
                assert forall|j: int| 0 <= j < p implies s[j] != x by {
                    if j > 0 {
                        assert(s.drop_first()[j - 1] != x);
                    }
                }
            }
            if s.drop_first().contains(x) {
                let k = choose|k: int|
                    0 <= k < s.drop_first().len() && s.drop_first()[k] == x;
                assert(s[k + 1] == x);
            }
            if s.contains(x) {
                let k = choose|k: int| 0 <= k < s.len() && s[k] == x;
                assert(k > 0);
                assert(s.drop_first()[k - 1] == x);
            }
        }
    }
}

/// A scan that found `x` at `i`, with no match before it, found `first_pos`.
pub proof fn lemma_first_pos_of_scan(s: Seq<u64>, x: u64, i: int)
    requires
        0 <= i < s.len(),
        s[i] == x,
        forall|j: int| 0 <= j < i ==> s[j] != x,
    ensures
        first_pos(s, x) == i,
{
    lemma_first_pos(s, x);
    assert(s.contains(x));
    let p = first_pos(s, x);
    if p < i {
        assert(s[p] != x);
    }
    if p > i {
        assert(s[i] != x);
    }
}

/// Removing the only occurrence of an index leaves a sequence without it.
pub proof fn lemma_remove_only_occurrence(s: Seq<u64>, x: u64)
    requires
        s.contains(x),
        forall|i: int, j: int| 0 <= i < s.len() && 0 <= j < s.len() && s[i] == x && s[j] == x ==> i
            == j,
    ensures
        !s.remove(first_pos(s, x)).contains(x),
{
    lemma_first_pos(s, x);
    let p = first_pos(s, x);
    let t = s.remove(p);
    if t.contains(x) {
        let k = choose|k: int| 0 <= k < t.len() && t[k] == x;
        if k < p {
            assert(s[k] == x);
        } else {
            assert(s[k + 1] == x);
        }
    }
}

} // verus!
