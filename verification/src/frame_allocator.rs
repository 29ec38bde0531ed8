//! Physical frame supply policies for the different boot phases.

use vstd::prelude::*;
use crate::frame::Frame;
use crate::paging::entry::MAX_ENTRY_FRAME;

pub mod area_frame_allocator;
pub mod bootstrap_frame_allocator;
pub mod nop_allocator;

pub use self::area_frame_allocator::AreaFrameAllocator;
pub use self::bootstrap_frame_allocator::BootstrapFrameAllocator;
pub use self::nop_allocator::NopAllocator;

verus! {

/// A supplier of physical frames.
///
/// `avail()` is exactly the set of frames the allocator may still hand out,
/// `picks` says which of them the next allocation returns, `held_seq()` is
/// the bookkeeping record of handed-out frames, and `can_supply(n)` promises
/// that the next `n` allocations succeed, so a caller that maps pages can
/// budget the table frames it will need.
pub trait FrameAllocator: Sized {
    /// The frames the allocator may still hand out.
    spec fn avail(&self) -> Set<u64>;

    /// The frame the next successful allocation hands out.
    spec fn picks(&self, f: u64) -> bool;

    /// Successive allocations return strictly increasing frames.
    spec fn ascending(&self) -> bool;

    /// The bookkeeping record of frames currently recorded as handed out,
    /// in record order.
    spec fn held_seq(&self) -> Seq<u64>;

    /// The record after an allocation of `f`.
    spec fn alloc_held(&self, f: u64) -> Seq<u64>;

    /// What `avail()` becomes when `f` is released.
    spec fn released_avail(&self, f: u64) -> Set<u64>;

    /// What `held_seq()` becomes when `f` is released.
    spec fn released_held(&self, f: u64) -> Seq<u64>;

    /// The supply guarantee that holds after `f` is released.
    spec fn released_supply(&self, f: u64, n: nat) -> bool;

    /// At least `n` further allocations are guaranteed to succeed.
    spec fn can_supply(&self, n: nat) -> bool;

    /// The allocator accepts a `release` of this frame now.
    spec fn can_release(&self, f: u64) -> bool;

    /// A supply guarantee covers every smaller demand.
    proof fn lemma_can_supply_weaken(&self, n: nat, k: nat)
        requires
            self.can_supply(n),
            k <= n,
        ensures
            self.can_supply(k),
    ;

    /// Hand out a frame, if one is available.
    fn allocate(&mut self) -> (r: Option<Frame>)
        ensures
            match r {
                Some(frame) => {
                    &&& old(self).avail().contains(frame@)
                    &&& old(self).picks(frame@)
                    &&& frame@ < MAX_ENTRY_FRAME
                    &&& final(self).avail() == old(self).avail().remove(frame@)
                    &&& final(self).held_seq() == old(self).alloc_held(frame@)
                    &&& final(self).can_release(frame@)
                    &&& old(self).ascending() ==> final(self).ascending() && (forall|g: u64|
                        final(self).avail().contains(g) ==> g > frame@)
                    &&& forall|n: nat|
                        old(self).can_supply(n + 1) ==> #[trigger] final(self).can_supply(n)
                    &&& forall|g: u64|
                        old(self).can_release(g) ==> #[trigger] final(self).can_release(g)
                },
                None => {
                    &&& !old(self).can_supply(1)
                    &&& final(self).avail() <= old(self).avail()
                    &&& final(self).held_seq() == old(self).held_seq()
                    &&& forall|g: u64|
                        old(self).can_release(g) ==> #[trigger] final(self).can_release(g)
                },
            },
    ;

    /// Take a frame back. What that means is the policy's own: recorded
    /// allocators strike the frame off their record, reusing allocators
    /// make it available again, counters ignore it.
    fn release(&mut self, frame: Frame)
        requires
            old(self).can_release(frame@),
        ensures
            final(self).avail() == old(self).released_avail(frame@),
            final(self).held_seq() == old(self).released_held(frame@),
            final(self).avail() <= old(self).avail().insert(frame@),
            final(self).ascending() == old(self).ascending(),
            forall|n: nat| old(self).can_supply(n) ==> #[trigger] final(self).can_supply(n),
            forall|n: nat|
                old(self).released_supply(frame@, n) ==> #[trigger] final(self).can_supply(n),
    ;
}

} // verus!
