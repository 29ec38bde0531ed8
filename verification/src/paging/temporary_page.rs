//! A single-page scratch window, backed by a three-frame micro-allocator:
//! populating one missing level 3, 2, 1 chain needs at most three new table
//! frames, so three frames are enough to map the window anywhere once.

use vstd::prelude::*;
use crate::frame::Frame;
use crate::frame_allocator::FrameAllocator;
use crate::paging::page::{Page, canonical_index};
use crate::paging::entry::{entry_frame, MAX_ENTRY_FRAME};
use crate::paging::active_page_table::ActivePageTable;
use crate::paging::mapper::{
    translate_page_spec,
    leaf_entry,
    l1_table,
    l2_table,
    l3_table,
    no_huge_on_path,
    leaf_unused,
    missing_tables,
};
use crate::bits::p4_field;

verus! {

/// A frame store of capacity three, deliberately tiny: it exists only to
/// supply the page-table frames a single scratch mapping can need.
pub struct TinyAllocator {
    f0: Option<Frame>,
    f1: Option<Frame>,
    f2: Option<Frame>,
}

impl TinyAllocator {
    #[verifier::type_invariant]
    closed spec fn type_wf(self) -> bool {
        self.wf()
    }

    /// The frame in the given slot, if any.
    pub closed spec fn slot(&self, i: int) -> Option<Frame> {
        if i == 0 {
            self.f0
        } else if i == 1 {
            self.f1
        } else {
            self.f2
        }
    }

    /// How many slots are filled.
    pub open spec fn filled(&self) -> int {
        (if self.slot(0) is Some {
            1int
        } else {
            0int
        }) + (if self.slot(1) is Some {
            1int
        } else {
            0int
        }) + (if self.slot(2) is Some {
            1int
        } else {
            0int
        })
    }

    /// No two slots hold the same frame, and all held frames fit an entry.
    pub open spec fn wf(&self) -> bool {
        &&& forall|i: int| #![trigger self.slot(i)]
            0 <= i < 3 && self.slot(i) is Some ==> self.slot(i).unwrap()@ < MAX_ENTRY_FRAME
        &&& forall|i: int, j: int| #![trigger self.slot(i), self.slot(j)]
            0 <= i < 3 && 0 <= j < 3 && i != j && self.slot(i) is Some && self.slot(j) is Some
                ==> self.slot(i).unwrap()@ != self.slot(j).unwrap()@
    }

    /// Pull up to three frames out of the given allocator.
    pub fn new<A: FrameAllocator>(allocator: &mut A) -> (r: TinyAllocator)
        ensures
            r.wf(),
            r.avail() <= old(allocator).avail(),
            final(allocator).avail() <= old(allocator).avail(),
            final(allocator).avail().disjoint(r.avail()),
            old(allocator).can_supply(3) ==> r.can_supply(3),
    {
        let f0 = allocator.allocate();
        let ghost a1 = *allocator;
        let f1 = allocator.allocate();
        let ghost a2 = *allocator;
        let f2 = allocator.allocate();
        proof {
            if old(allocator).can_supply(3) {
                old(allocator).lemma_can_supply_weaken(3, 1);
                assert(f0 is Some && a1.can_supply(2));
                a1.lemma_can_supply_weaken(2, 1);
                assert(f1 is Some && a2.can_supply(1));
                assert(f2 is Some);
            }
        }
        let r = TinyAllocator { f0, f1, f2 };
        proof {
            assert(r.slot(0) == f0 && r.slot(1) == f1 && r.slot(2) == f2);
            assert(r.avail() <= old(allocator).avail()) by {
                assert forall|g: u64| r.avail().contains(g) implies old(allocator).avail().contains(g) by {}
            }
            assert(final(allocator).avail().disjoint(r.avail())) by {
                assert forall|g: u64| r.avail().contains(g) implies !allocator.avail().contains(
                    g,
                ) by {
                    if f0 matches Some(x) && x@ == g {
                        assert(!a1.avail().contains(g));
                    } else if f1 matches Some(x) && x@ == g {
                        assert(!a2.avail().contains(g));
                    }
                }
            }
        }
        r
    }
}

impl TinyAllocator {
    /// The held frames in slot order: what the next allocations return.
    pub open spec fn slots_seq(&self) -> Seq<u64> {
        (match self.slot(0) {
            Some(f) => seq![f@],
            None => Seq::empty(),
        }) + (match self.slot(1) {
            Some(f) => seq![f@],
            None => Seq::empty(),
        }) + (match self.slot(2) {
            Some(f) => seq![f@],
            None => Seq::empty(),
        })
    }
}

impl FrameAllocator for TinyAllocator {
    open spec fn avail(&self) -> Set<u64> {
        Set::new(
            |g: u64|
                (self.slot(0) matches Some(f) && f@ == g) || (self.slot(1) matches Some(f) && f@
                    == g) || (self.slot(2) matches Some(f) && f@ == g),
        )
    }

    open spec fn picks(&self, f: u64) -> bool {
        self.slots_seq().len() > 0 && f == self.slots_seq()[0]
    }

    open spec fn ascending(&self) -> bool {
        false
    }

    open spec fn held_seq(&self) -> Seq<u64> {
        self.slots_seq()
    }

    open spec fn alloc_held(&self, f: u64) -> Seq<u64> {
        self.slots_seq().drop_first()
    }

    open spec fn released_avail(&self, f: u64) -> Set<u64> {
        self.avail().insert(f)
    }

    open spec fn released_held(&self, f: u64) -> Seq<u64> {
        if self.slot(0) is None {
            seq![f] + self.slots_seq()
        } else if self.slot(1) is None {
            (match self.slot(0) {
                Some(g) => seq![g@],
                None => Seq::empty(),
            }) + seq![f] + (match self.slot(2) {
                Some(g) => seq![g@],
                None => Seq::empty(),
            })
        } else {
            self.slots_seq() + seq![f]
        }
    }

    open spec fn released_supply(&self, f: u64, n: nat) -> bool {
        self.wf() && n <= self.filled() + 1
    }

    open spec fn can_supply(&self, n: nat) -> bool {
        self.wf() && n <= self.filled()
    }

    open spec fn can_release(&self, f: u64) -> bool {
        self.wf() && self.filled() < 3 && !self.avail().contains(f) && f < MAX_ENTRY_FRAME
    }

    proof fn lemma_can_supply_weaken(&self, n: nat, k: nat) {
    }

    fn allocate(&mut self) -> (r: Option<Frame>) {
        proof {
            use_type_invariant(&*self);
            assert(self.slot(0) == self.f0 && self.slot(1) == self.f1 && self.slot(2) == self.f2);
            assert(self.f0 matches Some(g) ==> g@ < MAX_ENTRY_FRAME);
            assert(self.f1 matches Some(g) ==> g@ < MAX_ENTRY_FRAME);
            assert(self.f2 matches Some(g) ==> g@ < MAX_ENTRY_FRAME);
        }
        if let Some(f) = self.f0 {
            *self = TinyAllocator { f0: None, f1: self.f1, f2: self.f2 };
            proof {
                assert(self.avail() =~= old(self).avail().remove(f@));
            }
            Some(f)
        } else if let Some(f) = self.f1 {
            *self = TinyAllocator { f0: None, f1: None, f2: self.f2 };
            proof {
                assert(self.avail() =~= old(self).avail().remove(f@));
            }
            Some(f)
        } else if let Some(f) = self.f2 {
            *self = TinyAllocator { f0: None, f1: None, f2: None };
            proof {
                assert(self.avail() =~= old(self).avail().remove(f@));
            }
            Some(f)
        } else {
            proof {
                assert(self.avail() =~= Set::<u64>::empty());
            }
            None
        }
    }

    fn release(&mut self, frame: Frame) {
        proof {
            use_type_invariant(&*self);
            assert(self.slot(0) == self.f0 && self.slot(1) == self.f1 && self.slot(2) == self.f2);
            assert(self.f0 matches Some(g) ==> g@ < MAX_ENTRY_FRAME);
            assert(self.f1 matches Some(g) ==> g@ < MAX_ENTRY_FRAME);
            assert(self.f2 matches Some(g) ==> g@ < MAX_ENTRY_FRAME);
        }
        proof {
            assert(old(self).slot(0) matches Some(f) ==> old(self).avail().contains(f@));
            assert(old(self).slot(1) matches Some(f) ==> old(self).avail().contains(f@));
            assert(old(self).slot(2) matches Some(f) ==> old(self).avail().contains(f@));
        }
        if self.f0.is_none() {
            *self = TinyAllocator { f0: Some(frame), f1: self.f1, f2: self.f2 };
        } else if self.f1.is_none() {
            *self = TinyAllocator { f0: self.f0, f1: Some(frame), f2: self.f2 };
        } else {
            *self = TinyAllocator { f0: self.f0, f1: self.f1, f2: Some(frame) };
        }
        proof {
            assert(self.avail() <= old(self).avail().insert(frame@)) by {
                assert forall|g: u64| self.avail().contains(g) implies old(self).avail().insert(frame@).contains(g) by {}
            }
        }
    }
}

/// One fixed virtual page used as a scratch window while editing tables that
/// are not reachable yet.
pub struct TemporaryPage {
    page: Page,
    alloc: TinyAllocator,
}

impl TemporaryPage {
    /// The scratch page's index.
    pub closed spec fn page_spec(&self) -> u64 {
        self.page@
    }

    /// The scratch page itself.
    pub closed spec fn page_of(&self) -> Page {
        self.page
    }

    /// The micro-allocator backing the window.
    pub closed spec fn allocator(&self) -> TinyAllocator {
        self.alloc
    }

    /// A scratch window at `page`, with three frames pulled from `alloc`.
    pub fn new<A: FrameAllocator>(page: Page, alloc: &mut A) -> (r: TemporaryPage)
        ensures
            r.page_spec() == page@,
            r.page_of() == page,
            r.allocator().wf(),
            r.allocator().avail() <= old(alloc).avail(),
            final(alloc).avail() <= old(alloc).avail(),
            final(alloc).avail().disjoint(r.allocator().avail()),
            old(alloc).can_supply(3) ==> r.allocator().can_supply(3),
    {
        TemporaryPage { page, alloc: TinyAllocator::new(alloc) }
    }

    /// Map the scratch window, which must currently be unmapped, to `frame`,
    /// and hand back the window's virtual address.
    pub fn map(&mut self, frame: Frame, active_table: &mut ActivePageTable) -> (r: u64)
        requires
            old(active_table).wf(),
            p4_field(old(self).page_spec()) != 511,
            frame@ < MAX_ENTRY_FRAME,
            translate_page_spec(
                old(active_table).phys(),
                old(active_table).root(),
                old(self).page_spec(),
            ) is None,
            leaf_unused(
                old(active_table).phys(),
                old(active_table).root(),
                old(self).page_spec(),
            ),
            no_huge_on_path(
                old(active_table).phys(),
                old(active_table).root(),
                old(self).page_spec(),
            ),
            old(self).allocator().can_supply(
                missing_tables(
                    old(active_table).phys(),
                    old(active_table).root(),
                    old(self).page_spec(),
                ),
            ),
            missing_tables(
                old(active_table).phys(),
                old(active_table).root(),
                old(self).page_spec(),
            ) > 0 ==> old(self).allocator().avail().disjoint(old(active_table).phys()@.dom()),
        ensures
            final(self).page_spec() == old(self).page_spec(),
            final(self).page_of() == old(self).page_of(),
            r == old(self).page_spec() * 4096,
            final(active_table).wf(),
            final(active_table).root() == old(active_table).root(),
            translate_page_spec(
                final(active_table).phys(),
                final(active_table).root(),
                old(self).page_spec(),
            ) == Some(frame@),
            leaf_entry(
                final(active_table).phys(),
                final(active_table).root(),
                old(self).page_spec(),
            ) == crate::paging::entry::make_entry(frame@, 3),
            forall|r2: u64, q: u64|
                #![trigger translate_page_spec(final(active_table).phys(), r2, q)]
                old(active_table).phys().is_root(r2) && p4_field(q) != 511 && canonical_index(
                    q as int,
                ) && !(r2 == old(active_table).root() && q == old(self).page_spec())
                    ==> translate_page_spec(final(active_table).phys(), r2, q)
                    == translate_page_spec(old(active_table).phys(), r2, q),
            forall|g: u64| #[trigger]
                old(active_table).phys()@.contains_key(g) ==> final(active_table).phys()@.contains_key(g) && final(active_table).phys().lvl(g) == old(active_table).phys().lvl(g),
            forall|g: u64| #[trigger]
                final(active_table).phys()@.contains_key(g) ==> old(active_table).phys()@.contains_key(g) || old(self).allocator().avail().contains(g),
            forall|g: u64|
                final(active_table).phys().is_root(g) == old(active_table).phys().is_root(g),
            forall|r2: u64, q: u64|
                #![trigger l3_table(final(active_table).phys(), r2, q)]
                #![trigger l1_table(final(active_table).phys(), r2, q)]
                #![trigger leaf_entry(final(active_table).phys(), r2, q)]
                old(active_table).phys().is_root(r2) && r2 != old(active_table).root()
                    && p4_field(q) != 511 ==> {
                    &&& l3_table(final(active_table).phys(), r2, q) == l3_table(
                        old(active_table).phys(),
                        r2,
                        q,
                    )
                    &&& l2_table(final(active_table).phys(), r2, q) == l2_table(
                        old(active_table).phys(),
                        r2,
                        q,
                    )
                    &&& l1_table(final(active_table).phys(), r2, q) == l1_table(
                        old(active_table).phys(),
                        r2,
                        q,
                    )
                    &&& leaf_entry(final(active_table).phys(), r2, q) == leaf_entry(
                        old(active_table).phys(),
                        r2,
                        q,
                    )
                    &&& no_huge_on_path(final(active_table).phys(), r2, q) == no_huge_on_path(
                        old(active_table).phys(),
                        r2,
                        q,
                    )
                },
            final(self).allocator().avail() <= old(self).allocator().avail(),
            missing_tables(
                old(active_table).phys(),
                old(active_table).root(),
                old(self).page_spec(),
            ) == 0 ==> final(self).allocator() == old(self).allocator(),
            missing_tables(
                old(active_table).phys(),
                old(active_table).root(),
                old(self).page_spec(),
            ) > 0 ==> exists|g: u64|
                #[trigger] final(self).allocator().can_release(g) && !final(self).allocator().avail().contains(g),
            forall|g: u64|
                old(self).allocator().can_release(g) ==> #[trigger] final(self).allocator().can_release(g),
    {
        proof {
            lemma_child_flags_again();
        }
        let addr = self.page.start_addr();
        active_table.mapper().map_to(
            self.page,
            frame,
            crate::paging::entry::EntryFlags::present().union(
                crate::paging::entry::EntryFlags::writable(),
            ),
            &mut self.alloc,
        );
        addr
    }

    /// Unmap the scratch window and give its backing frame, which is
    /// returned, back to the micro-allocator.
    pub fn unmap(&mut self, active_table: &mut ActivePageTable) -> (r: Frame)
        requires
            old(active_table).wf(),
            p4_field(old(self).page_spec()) != 511,
            l1_table(
                old(active_table).phys(),
                old(active_table).root(),
                old(self).page_spec(),
            ) is Some,
            crate::paging::entry::entry_present(
                leaf_entry(
                    old(active_table).phys(),
                    old(active_table).root(),
                    old(self).page_spec(),
                ),
            ),
            old(self).allocator().can_release(
                entry_frame(
                    leaf_entry(
                        old(active_table).phys(),
                        old(active_table).root(),
                        old(self).page_spec(),
                    ),
                ),
            ),
        ensures
            final(self).page_spec() == old(self).page_spec(),
            final(self).page_of() == old(self).page_of(),
            final(active_table).wf(),
            final(active_table).root() == old(active_table).root(),
            r@ == entry_frame(
                leaf_entry(
                    old(active_table).phys(),
                    old(active_table).root(),
                    old(self).page_spec(),
                ),
            ),
            translate_page_spec(
                final(active_table).phys(),
                final(active_table).root(),
                old(self).page_spec(),
            ) is None,
            forall|r2: u64, q: u64|
                #![trigger translate_page_spec(final(active_table).phys(), r2, q)]
                old(active_table).phys().is_root(r2) && p4_field(q) != 511 && canonical_index(
                    q as int,
                ) && !(r2 == old(active_table).root() && q == old(self).page_spec())
                    ==> translate_page_spec(final(active_table).phys(), r2, q)
                    == translate_page_spec(old(active_table).phys(), r2, q),
            forall|g: u64| #[trigger]
                final(active_table).phys()@.contains_key(g) == old(active_table).phys()@.contains_key(g),
            forall|g: u64| #[trigger]
                old(active_table).phys()@.contains_key(g) && old(active_table).phys().lvl(g) != 1
                    ==> final(active_table).phys()@[g] == old(active_table).phys()@[g],
            final(active_table).phys().levels_map() == old(active_table).phys().levels_map(),
            final(self).allocator().avail() == old(self).allocator().released_avail(r@),
            final(self).allocator().held_seq() == old(self).allocator().released_held(r@),
            forall|n: nat|
                old(self).allocator().released_supply(r@, n) ==> #[trigger] final(self).allocator().can_supply(n),
            forall|r2: u64, q: u64|
                #![trigger l3_table(final(active_table).phys(), r2, q)]
                #![trigger l1_table(final(active_table).phys(), r2, q)]
                #![trigger leaf_entry(final(active_table).phys(), r2, q)]
                old(active_table).phys().is_root(r2) && r2 != old(active_table).root()
                    && p4_field(q) != 511 ==> {
                    &&& l3_table(final(active_table).phys(), r2, q) == l3_table(
                        old(active_table).phys(),
                        r2,
                        q,
                    )
                    &&& l2_table(final(active_table).phys(), r2, q) == l2_table(
                        old(active_table).phys(),
                        r2,
                        q,
                    )
                    &&& l1_table(final(active_table).phys(), r2, q) == l1_table(
                        old(active_table).phys(),
                        r2,
                        q,
                    )
                    &&& leaf_entry(final(active_table).phys(), r2, q) == leaf_entry(
                        old(active_table).phys(),
                        r2,
                        q,
                    )
                    &&& no_huge_on_path(final(active_table).phys(), r2, q) == no_huge_on_path(
                        old(active_table).phys(),
                        r2,
                        q,
                    )
                },
    {
        active_table.mapper().unmap(self.page, &mut self.alloc)
    }
}

proof fn lemma_child_flags_again()
    ensures
        1u64 | 2 == 3,
        3u64 | 1 == 3,
{
    assert((1u64 | 2) == 3 && (3u64 | 1) == 3) by (bit_vector);
}

} // verus!
