//! A bump allocator over a byte range: allocation only ever moves a cursor
//! forward, and freed memory is leaked.

use vstd::prelude::*;

verus! {

/// The alignment is a power of two.
pub open spec fn is_pow2(align: u64) -> bool {
    align > 0 && align & ((align - 1) as u64) == 0
}

/// The address has nothing outside the mask's complement: it is aligned.
pub open spec fn mask_aligned(a: u64, align: u64) -> bool {
    a & ((align - 1) as u64) == 0
}

/// Alignment arithmetic for powers of two, in mask form.
proof fn lemma_align_mask(a: u64, al: u64)
    requires
        is_pow2(al),
    ensures
        a & !((al - 1) as u64) <= a,
        a <= (a & !((al - 1) as u64)) + ((al - 1) as u64),
        mask_aligned((a & !((al - 1) as u64)) as u64, al),
{
    let m: u64 = (al - 1) as u64;
    assert((a & !m) <= a && a <= (a & !m) + m && (a & !m) & m == 0) by (bit_vector)
        requires
            al > 0,
            al & m == 0,
            m + 1 == al,
    ;
}

/// `addr` rounded down to the given alignment; an alignment of zero leaves
/// the address alone, and anything else must be a power of two.
pub fn align_down(addr: u64, align: u64) -> (r: u64)
    requires
        align == 0 || is_pow2(align),
    ensures
        align == 0 ==> r == addr,
        is_pow2(align) ==> r == addr & !((align - 1) as u64) && r <= addr && addr <= r + (align
            - 1) && mask_aligned(r, align),
{
    if align != 0 && align & (align - 1) == 0 {
        proof {
            lemma_align_mask(addr, align);
        }
        addr & !(align - 1)
    } else {
        addr
    }
}

/// The aligned address `align_up` computes, as a value.
pub open spec fn spec_align_up(addr: u64, align: u64) -> u64 {
    if align == 0 {
        addr
    } else {
        ((addr + align - 1) as u64) & !((align - 1) as u64)
    }
}

/// `addr` rounded up to the given alignment.
pub fn align_up(addr: u64, align: u64) -> (r: u64)
    requires
        align == 0 || (is_pow2(align) && addr + align - 1 <= u64::MAX),
    ensures
        r == spec_align_up(addr, align),
        align == 0 ==> r == addr,
        is_pow2(align) ==> mask_aligned(r, align) && addr <= r && r < addr + align,
{
    if align == 0 {
        addr
    } else {
        proof {
            lemma_align_mask((addr + align - 1) as u64, align);
        }
        align_down(addr + (align - 1), align)
    }
}

/// A bump allocator handing out addresses from `[heap_start, heap_end)`.
#[derive(Debug)]
pub struct BumpAllocator {
    heap_start: u64,
    heap_end: u64,
    next: u64,
}

impl BumpAllocator {
    /// The start of the heap window.
    pub closed spec fn start_spec(&self) -> u64 {
        self.heap_start
    }

    /// The end of the heap window.
    pub closed spec fn end_spec(&self) -> u64 {
        self.heap_end
    }

    /// The next address that may be handed out.
    pub closed spec fn next_spec(&self) -> u64 {
        self.next
    }

    /// An allocator over the empty range, to be initialized later.
    pub fn empty() -> (r: BumpAllocator)
        ensures
            r.start_spec() == 0,
            r.end_spec() == 0,
            r.next_spec() == 0,
    {
        BumpAllocator { heap_start: 0, heap_end: 0, next: 0 }
    }

    /// Point the allocator at the heap window `[heap_start, heap_end)`.
    pub fn init(&mut self, heap_start: u64, heap_end: u64)
        ensures
            final(self).start_spec() == heap_start,
            final(self).end_spec() == heap_end,
            final(self).next_spec() == heap_start,
    {
        self.heap_start = heap_start;
        self.heap_end = heap_end;
        self.next = heap_start;
    }

    /// Hand out `size` bytes at the given alignment, bumping the cursor, or
    /// nothing exactly when the aligned block does not fit below the window
    /// end.
    pub fn allocate(&mut self, size: u64, align: u64) -> (r: Option<u64>)
        requires
            is_pow2(align),
            old(self).next_spec() + align - 1 <= u64::MAX,
        ensures
            r == if spec_align_up(old(self).next_spec(), align) + size <= old(self).end_spec() {
                Some(spec_align_up(old(self).next_spec(), align))
            } else {
                None::<u64>
            },
            match r {
                Some(a) => {
                    &&& mask_aligned(a, align)
                    &&& old(self).next_spec() <= a
                    &&& a + size <= old(self).end_spec()
                    &&& final(self).next_spec() == a + size
                    &&& final(self).start_spec() == old(self).start_spec()
                    &&& final(self).end_spec() == old(self).end_spec()
                },
                None => *final(self) == *old(self),
            },
    {
        let alloc_start = align_up(self.next, align);
        if alloc_start <= u64::MAX - size && alloc_start + size <= self.heap_end {
            self.next = alloc_start + size;
            Some(alloc_start)
        } else {
            None
        }
    }
}

} // verus!
