//! Kernel stack allocation: stacks are carved out of a fixed page range,
//! each preceded by one deliberately unmapped guard page that faults on
//! overflow.

use vstd::prelude::*;
use crate::frame_allocator::FrameAllocator;
use crate::paging::page::{Page, PageIter, canonical_index};
use crate::paging::active_page_table::ActivePageTable;
use crate::paging::mapper::{
    translate_page_spec,
    leaf_entry,
    no_huge_on_path,
    leaf_unused,
    missing_tables,
};
use crate::bits::p4_field;

verus! {

/// An allocated kernel stack: the addresses just past its top and of its
/// bottom.
#[derive(Debug, Clone, Copy, PartialEq, Eq, Structural)]
pub struct Stack {
    top: u64,
    bottom: u64,
}

impl Stack {
    /// A stack spanning `[bottom, top)`.
    pub fn new(top: u64, bottom: u64) -> (r: Stack)
        requires
            top > bottom,
        ensures
            r.top_spec() == top,
            r.bottom_spec() == bottom,
    {
        Stack { top, bottom }
    }

    /// The address just past the stack's highest byte.
    pub closed spec fn top_spec(&self) -> u64 {
        self.top
    }

    /// The address of the stack's lowest byte.
    pub closed spec fn bottom_spec(&self) -> u64 {
        self.bottom
    }

    /// The address just past the stack's highest byte.
    pub fn top(&self) -> (r: u64)
        ensures
            r == self.top_spec(),
    {
        self.top
    }

    /// The address of the stack's lowest byte.
    pub fn bottom(&self) -> (r: u64)
        ensures
            r == self.bottom_spec(),
    {
        self.bottom
    }
}

/// Hands out stacks from a fixed range of pages, spending one extra page
/// per stack as a guard.
pub struct StackAllocator {
    range: PageIter,
}

impl StackAllocator {
    /// The pages not yet spent, in the order they will be used.
    pub closed spec fn remaining(&self) -> Seq<nat> {
        self.range.remaining()
    }

    /// An allocator carving stacks out of the given page range.
    pub fn new(page_range: PageIter) -> (r: StackAllocator)
        ensures
            r.remaining() == page_range.remaining(),
    {
        StackAllocator { range: page_range }
    }

    /// Carve out a stack of `size_in_pages` pages: one page of the range is
    /// skipped as a guard and left unmapped, the next `size_in_pages` pages
    /// are mapped to fresh frames. Nothing outside those pages changes.
    #[verifier::rlimit(100)]
    #[verifier::spinoff_prover]
    pub fn allocate<A: FrameAllocator>(
        &mut self,
        active_table: &mut ActivePageTable,
        frame_allocator: &mut A,
        size_in_pages: usize,
    ) -> (r: Option<Stack>)
        requires
            old(active_table).wf(),
            forall|k: int|
                0 <= k < old(self).remaining().len() ==> {
                    &&& p4_field(old(self).remaining()[k] as u64) != 511
                    &&& old(self).remaining()[k] < 0xFFFFFFFFFFFFF
                    &&& leaf_unused(
                        old(active_table).phys(),
                        old(active_table).root(),
                        old(self).remaining()[k] as u64,
                    )
                    &&& no_huge_on_path(
                        old(active_table).phys(),
                        old(active_table).root(),
                        old(self).remaining()[k] as u64,
                    )
                },
            old(frame_allocator).can_supply((4 * size_in_pages) as nat),
            old(frame_allocator).avail().disjoint(old(active_table).phys()@.dom()),
        ensures
            final(active_table).wf(),
            final(active_table).root() == old(active_table).root(),
            match r {
                Some(stack) => {
                    &&& size_in_pages > 0
                    &&& old(self).remaining().len() >= size_in_pages + 1
                    &&& stack.bottom_spec() == old(self).remaining()[1] * 4096
                    &&& stack.top_spec() == stack.bottom_spec() + size_in_pages * 4096
                    &&& forall|k: int|
                        1 <= k <= size_in_pages ==> translate_page_spec(
                            final(active_table).phys(),
                            final(active_table).root(),
                            #[trigger] old(self).remaining()[k] as u64,
                        ) is Some
                    &&& final(self).remaining() == old(self).remaining().skip(
                        size_in_pages + 1,
                    )
                },
                None => {
                    &&& size_in_pages == 0 || old(self).remaining().len() < size_in_pages + 1
                    &&& *final(self) == *old(self)
                    &&& final(active_table).phys() == old(active_table).phys()
                    &&& *final(frame_allocator) == *old(frame_allocator)
                },
            },
            forall|r2: u64, q: u64|
                #![trigger translate_page_spec(final(active_table).phys(), r2, q)]
                old(active_table).phys().is_root(r2) && p4_field(q) != 511 && canonical_index(
                    q as int,
                ) && (forall|k: int|
                    1 <= k <= size_in_pages && k < old(self).remaining().len() ==> q != old(
                        self,
                    ).remaining()[k]) ==> translate_page_spec(final(active_table).phys(), r2, q)
                    == translate_page_spec(old(active_table).phys(), r2, q),
    {
        if size_in_pages == 0 {
            return None;
        }
        let pages_needed = size_in_pages as u64;
        if self.range.pages_left() <= pages_needed {
            return None;
        }
        let ghost rem0 = self.remaining();
        let ghost m0 = active_table.phys();
        let ghost r0 = active_table.root();
        proof {
            use_type_invariant(&self.range);
            PageIter::lemma_remaining_pages(self.range);
            assert forall|k1: int, k2: int|
                0 <= k1 < rem0.len() && 0 <= k2 < rem0.len() && k1 != k2 implies rem0[k1]
                != rem0[k2] by {}
        }
        // the first page of the run is the guard: skipped, never mapped
        let _guard = self.range.next();
        let mut j: usize = 0;
        let mut bottom: u64 = 0;
        while j < size_in_pages
            invariant
                1 + j <= rem0.len(),
                size_in_pages + 1 <= rem0.len(),
                j <= size_in_pages,
                active_table.wf(),
                active_table.root() == r0,
                self.remaining() == rem0.skip(1 + j),
                forall|g: u64| m0.is_root(g) ==> #[trigger] active_table.phys().is_root(g),
                forall|g: u64| #[trigger]
                    m0@.contains_key(g) ==> active_table.phys()@.contains_key(g),
                frame_allocator.can_supply(4 * ((size_in_pages - j) as nat)),
                frame_allocator.avail().disjoint(active_table.phys()@.dom()),
                forall|k: int|
                    0 <= k < rem0.len() ==> #[trigger] rem0[k] == rem0[0] + k && canonical_index(
                        rem0[k] as int,
                    ) && rem0[k] < 0xFFFFFFFFFFFFF,
                forall|k: int|
                    1 + j <= k < rem0.len() ==> {
                        &&& p4_field(rem0[k] as u64) != 511
                        &&& leaf_unused(active_table.phys(), r0, rem0[k] as u64)
                        &&& no_huge_on_path(active_table.phys(), r0, rem0[k] as u64)
                    },
                j > 0 ==> bottom == rem0[1] * 4096,
                forall|k: int|
                    1 <= k <= j ==> translate_page_spec(
                        active_table.phys(),
                        r0,
                        #[trigger] rem0[k] as u64,
                    ) is Some,
                forall|r2: u64, q: u64|
                    #![trigger translate_page_spec(active_table.phys(), r2, q)]
                    m0.is_root(r2) && p4_field(q) != 511 && canonical_index(q as int) && (forall|
                        k: int,
                    |
                        1 <= k <= j ==> q != rem0[k]) ==> translate_page_spec(
                        active_table.phys(),
                        r2,
                        q,
                    ) == translate_page_spec(m0, r2, q),
            decreases size_in_pages - j,
        {
            let page_opt = self.range.next();
            proof {
                assert(rem0.skip(1 + j).len() > 0);
                assert(page_opt is Some);
            }
            let page = page_opt.unwrap();
            proof {
                assert(rem0.skip(1 + j)[0] == rem0[1 + j]);
                assert(page@ == rem0[1 + j]);
                use_type_invariant(&page);
                crate::paging::page::lemma_page_canonical(page);
                frame_allocator.lemma_can_supply_weaken(
                    4 * ((size_in_pages - j) as nat),
                    missing_tables(active_table.phys(), r0, page@) + 1,
                );
            }
            let ghost mpre = active_table.phys();
            let ghost apre = *frame_allocator;
            active_table.mapper().map(
                page,
                crate::paging::entry::EntryFlags::writable(),
                frame_allocator,
            );
            if j == 0 {
                bottom = page.start_addr();
            }
            j = j + 1;
            proof {
                assert(rem0.skip(1 + j) =~= rem0.skip(1 + (j - 1)).drop_first());
                assert(frame_allocator.can_supply(4 * ((size_in_pages - j) as nat))) by {
                    assert(apre.can_supply((4 * ((size_in_pages - j) as nat) + 4) as nat));
                }
                assert forall|k: int| 1 + j <= k < rem0.len() implies {
                    &&& p4_field(rem0[k] as u64) != 511
                    &&& leaf_unused(active_table.phys(), r0, rem0[k] as u64)
                    &&& no_huge_on_path(active_table.phys(), r0, rem0[k] as u64)
                } by {
                    assert(rem0[k] == rem0[0] + k && rem0[1 + (j - 1)] == rem0[0] + 1 + (j - 1));
                    assert(rem0[k] != rem0[1 + (j - 1)]);
                    assert(leaf_unused(mpre, r0, rem0[k] as u64));
                    assert(translate_page_spec(active_table.phys(), r0, rem0[k] as u64)
                        == translate_page_spec(mpre, r0, rem0[k] as u64));
                }
                assert forall|k: int| 1 <= k <= j implies translate_page_spec(
                    active_table.phys(),
                    r0,
                    #[trigger] rem0[k] as u64,
                ) is Some by {
                    if k < j {
                        assert(rem0[k] != rem0[1 + (j - 1)]);
                    }
                }
            }
        }
        proof {
            assert(bottom == rem0[1] * 4096);
            assert(rem0[size_in_pages as int] == rem0[0] + size_in_pages);
            assert(rem0[1] == rem0[0] + 1);
            assert(rem0[1] + size_in_pages <= 0xFFFFFFFFFFFFF);
        }
        Some(Stack::new(bottom + pages_needed * 4096, bottom))
    }
}

} // verus!
