//! Virtual pages: page-sized units of the virtual address space, identified
//! by index. A page is valid only if its address is canonical.

use vstd::prelude::*;
use crate::PAGE_SIZE;
use crate::bits::{
    p4_field,
    p3_field,
    p2_field,
    p1_field,
    lemma_shift_fields,
    range_seq,
    lemma_range_seq,
};
use crate::paging::VirtualAddr;

verus! {

/// A virtual address is canonical when it lies strictly below `2^47` or at or
/// above `0xffff_8000_0000_0000`.
pub open spec fn canonical_addr(addr: u64) -> bool {
    addr < 0x800000000000 || addr >= 0xffff800000000000
}

/// The page indices of canonical addresses: below `2^35`, or in
/// `[2^52 - 2^35, 2^52)`.
pub open spec fn canonical_index(i: int) -> bool {
    i < 0x800000000 || (0xffff800000000 <= i && i < 0x10000000000000)
}

/// Both indices on the same side of the canonical hole, so every index
/// between them is canonical as well.
pub open spec fn same_half(a: u64, b: u64) -> bool {
    (a < 0x800000000) == (b < 0x800000000)
}

/// A virtual page: virtual address divided by the page size.
#[derive(Debug, PartialEq, Eq, Structural, PartialOrd, Ord, Hash, Clone, Copy)]
pub struct Page {
    index: u64,
}

impl View for Page {
    type V = u64;

    closed spec fn view(&self) -> u64 {
        self.index
    }
}

impl Page {
    #[verifier::type_invariant]
    pub closed spec fn type_wf(self) -> bool {
        canonical_index(self.index as int)
    }

    /// The page holding the given virtual address, which must be canonical.
    pub fn containing_addr(addr: VirtualAddr) -> (r: Page)
        requires
            canonical_addr(addr),
        ensures
            r@ == addr / PAGE_SIZE,
    {
        proof {
            if addr >= 0xffff800000000000 {
                vstd::arithmetic::div_mod::lemma_div_is_ordered(
                    0xffff800000000000,
                    addr as int,
                    4096,
                );
            }
        }
        Page { index: addr / PAGE_SIZE }
    }

    /// Virtual address of the page's first byte.
    pub fn start_addr(&self) -> (r: VirtualAddr)
        ensures
            r == self@ * PAGE_SIZE,
    {
        proof {
            use_type_invariant(self);
        }
        self.index * PAGE_SIZE
    }

    /// The consecutive pages from `start` to `end`, both inclusive. A
    /// non-empty range must not straddle the non-canonical hole.
    pub fn range_inclusive(start: Page, end: Page) -> (r: PageIter)
        requires
            start@ <= end@ ==> same_half(start@, end@),
        ensures
            r.remaining() == range_seq(start@ as nat, end@ as nat),
    {
        proof {
            use_type_invariant(&start);
            use_type_invariant(&end);
        }
        PageIter { next_index: start.index, end_index: end.index }
    }

    /// Page with the given index, which must be canonical.
    pub fn new_from_index(index: u64) -> (r: Page)
        requires
            canonical_index(index as int),
        ensures
            r@ == index,
    {
        Page { index }
    }

    /// The page `n` places further up, which must still be canonical.
    pub fn offset(self, n: u64) -> (r: Page)
        requires
            canonical_index(self@ + n),
        ensures
            r@ == self@ + n,
    {
        Page { index: self.index + n }
    }

    /// Index into the level-4 table: bits 27 to 35 of the page index.
    pub fn p4_index(&self) -> (r: usize)
        ensures
            r == p4_field(self@),
    {
        proof {
            use_type_invariant(self);
            lemma_shift_fields(self.index);
        }
        ((self.index >> 27) & 0o777) as usize
    }

    /// Index into the level-3 table: bits 18 to 26 of the page index.
    pub fn p3_index(&self) -> (r: usize)
        ensures
            r == p3_field(self@),
    {
        proof {
            use_type_invariant(self);
            lemma_shift_fields(self.index);
        }
        ((self.index >> 18) & 0o777) as usize
    }

    /// Index into the level-2 table: bits 9 to 17 of the page index.
    pub fn p2_index(&self) -> (r: usize)
        ensures
            r == p2_field(self@),
    {
        proof {
            use_type_invariant(self);
            lemma_shift_fields(self.index);
        }
        ((self.index >> 9) & 0o777) as usize
    }

    /// Index into the level-1 table: bits 0 to 8 of the page index.
    pub fn p1_index(&self) -> (r: usize)
        ensures
            r == p1_field(self@),
    {
        proof {
            use_type_invariant(self);
            lemma_shift_fields(self.index);
        }
        (self.index & 0o777) as usize
    }
}

/// Index round-trip: the page holding an address starts in the same page
/// frame as the address itself, for every canonical address.
pub proof fn lemma_containing_addr_roundtrip(addr: u64)
    requires
        canonical_addr(addr),
    ensures
        (addr as int / 4096) * 4096 / 4096 == addr as int / 4096,
{
    vstd::arithmetic::div_mod::lemma_div_multiples_vanish(addr as int / 4096, 4096);
}

/// Decomposing a page index into its four 9-bit table-index fields and
/// recomposing them with `(((p4 << 9 | p3) << 9 | p2) << 9) | p1` reproduces
/// the index, for every index the four fields can represent.
pub proof fn lemma_index_recompose(i: u64)
    requires
        i < 0x1000000000,
    ensures
        crate::bits::recompose(
            crate::bits::p4_field(i),
            crate::bits::p3_field(i),
            crate::bits::p2_field(i),
            crate::bits::p1_field(i),
        ) == i,
{
    crate::bits::lemma_recompose_mod(i);
}

/// Every page's index is canonical.
pub proof fn lemma_page_canonical(page: Page)
    requires
        page.type_wf(),
    ensures
        canonical_index(page@ as int),
        page@ < 0x10000000000000,
{
}

/// Yields the consecutive pages of an inclusive range, in ascending order.
#[derive(Clone, Copy, Debug)]
pub struct PageIter {
    next_index: u64,
    end_index: u64,
}

impl PageIter {
    #[verifier::type_invariant]
    pub closed spec fn type_wf(self) -> bool {
        &&& self.next_index > self.end_index || (canonical_index(self.next_index as int)
            && canonical_index(self.end_index as int) && same_half(self.next_index, self.end_index))
        &&& self.next_index <= 0x10000000000000
        &&& self.end_index < 0x10000000000000
    }

    /// The pages not yet yielded, in the order they will come.
    pub closed spec fn remaining(&self) -> Seq<nat> {
        range_seq(self.next_index as nat, self.end_index as nat)
    }

    /// How many pages are left.
    pub fn pages_left(&self) -> (r: u64)
        ensures
            r == self.remaining().len(),
    {
        proof {
            use_type_invariant(self);
            lemma_range_seq(self.next_index as nat, self.end_index as nat);
        }
        if self.next_index > self.end_index {
            0
        } else {
            self.end_index - self.next_index + 1
        }
    }

    /// The pages still to come are consecutive canonical indices.
    pub proof fn lemma_remaining_pages(iter: PageIter)
        requires
            iter.type_wf(),
        ensures
            forall|k: int|
                0 <= k < iter.remaining().len() ==> #[trigger] iter.remaining()[k]
                    == iter.remaining()[0] + k && canonical_index(iter.remaining()[k] as int)
                    && iter.remaining()[k] < 0x10000000000000,
    {
        lemma_range_seq(iter.next_index as nat, iter.end_index as nat);
        assert forall|k: int| 0 <= k < iter.remaining().len() implies #[trigger] iter.remaining()[k]
            == iter.remaining()[0] + k && canonical_index(iter.remaining()[k] as int)
            && iter.remaining()[k] < 0x10000000000000 by {
            crate::bits::lemma_range_seq_index(iter.next_index as nat, iter.end_index as nat, k);
            crate::bits::lemma_range_seq_index(iter.next_index as nat, iter.end_index as nat, 0);
        }
    }

    /// The next page of the range, if one is left.
    pub fn next(&mut self) -> (r: Option<Page>)
        ensures
            match r {
                Some(page) => old(self).remaining().len() > 0 && page@ == old(
                    self,
                ).remaining()[0] && final(self).remaining() == old(self).remaining().drop_first(),
                None => old(self).remaining().len() == 0 && final(self).remaining() == old(
                    self,
                ).remaining(),
            },
    {
        proof {
            use_type_invariant(&*self);
            lemma_range_seq(self.next_index as nat, self.end_index as nat);
        }
        if self.next_index > self.end_index {
            return None;
        }
        let page = Page { index: self.next_index };
        self.next_index = self.next_index + 1;
        Some(page)
    }
}

} // verus!
