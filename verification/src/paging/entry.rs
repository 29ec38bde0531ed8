//! One 64-bit hardware page-table entry: bits 12 to 51 hold the physical base
//! of the pointed-to frame, the remaining bits hold flags.

use vstd::prelude::*;
use crate::frame::Frame;
use crate::PAGE_SIZE;

verus! {

/// Bits of an entry that hold the pointed-to frame's physical base address.
pub const ADDR_MASK: u64 = 0x000f_ffff_ffff_f000;

/// Bits of an entry that hold hardware flags.
pub const FLAGS_MASK: u64 = 0x8000_0000_0000_01ff;

/// Largest frame index whose base address fits in the address bits (`2^40`).
pub const MAX_ENTRY_FRAME: u64 = 0x100_0000_0000;

/// The entry's present bit is set.
pub open spec fn entry_present(e: u64) -> bool {
    e & 1 == 1
}

/// The entry's huge-page bit is set.
pub open spec fn entry_huge(e: u64) -> bool {
    e & 0x80 == 0x80
}

/// The entry's writable bit is set.
pub open spec fn entry_writable(e: u64) -> bool {
    e & 2 == 2
}

/// Physical base address stored in the entry.
pub open spec fn entry_addr(e: u64) -> u64 {
    e & 0x000f_ffff_ffff_f000
}

/// Index of the frame whose base address is stored in the entry.
pub open spec fn entry_frame(e: u64) -> u64 {
    (e & 0x000f_ffff_ffff_f000) >> 12
}

/// The bits are flag bits only: nothing in the address area.
pub open spec fn flags_wf(bits: u64) -> bool {
    bits & !0x8000_0000_0000_01ff == 0
}

/// An entry packed from a frame index and flag bits.
pub open spec fn make_entry(f: u64, flags: u64) -> u64 {
    (((f * 4096) as u64) | flags) as u64
}

/// Unpacking a packed entry recovers the frame and the flags.
pub proof fn lemma_entry_unpack(f: u64, flags: u64)
    requires
        f < MAX_ENTRY_FRAME,
        flags_wf(flags),
    ensures
        entry_addr(make_entry(f, flags)) == f * 4096,
        entry_frame(make_entry(f, flags)) == f,
        entry_present(make_entry(f, flags)) == (flags & 1 == 1),
        entry_huge(make_entry(f, flags)) == (flags & 0x80 == 0x80),
        make_entry(f, flags) & 0x8000_0000_0000_01ff == flags,
        make_entry(f, flags) != 0 || (f == 0 && flags == 0),
{
    let e: u64 = (((f * 4096) as u64) | flags) as u64;
    assert((e & 0x000f_ffff_ffff_f000 == ((f * 4096) as u64)) && ((e
        & 0x000f_ffff_ffff_f000) >> 12 == f) && ((e & 1 == 1) == (flags & 1 == 1)) && ((e & 0x80
        == 0x80) == (flags & 0x80 == 0x80)) && (e & 0x8000_0000_0000_01ff == flags) && (e != 0 || (
    f == 0 && flags == 0))) by (bit_vector)
        requires
            f < 0x100_0000_0000,
            flags & !0x8000_0000_0000_01ff == 0,
            e == (((f * 4096) as u64) | flags) as u64,
    ;
}

/// A frame index read back out of an entry is always below `2^40`.
pub proof fn lemma_entry_frame_bound(e: u64)
    ensures
        entry_frame(e) < MAX_ENTRY_FRAME,
        entry_addr(e) == entry_frame(e) * 4096,
{
    assert(((e & 0x000f_ffff_ffff_f000) >> 12) < 0x100_0000_0000 && (e & 0x000f_ffff_ffff_f000)
        == ((e & 0x000f_ffff_ffff_f000) >> 12) * 4096) by (bit_vector);
}

/// A zeroed entry is neither present nor huge.
pub proof fn lemma_zero_entry()
    ensures
        !entry_present(0),
        !entry_huge(0),
        entry_frame(0) == 0,
{
    assert(0u64 & 1 != 1 && 0u64 & 0x80 != 0x80 && (0u64 & 0x000f_ffff_ffff_f000) >> 12 == 0)
        by (bit_vector);
}

/// The union of two flag-only values is flag-only.
pub proof fn lemma_flags_or(a: u64, b: u64)
    requires
        flags_wf(a),
        flags_wf(b),
    ensures
        flags_wf(a | b),
{
    assert(a & !0x8000_0000_0000_01ff == 0 && b & !0x8000_0000_0000_01ff == 0 ==> (a | b)
        & !0x8000_0000_0000_01ff == 0) by (bit_vector);
}

proof fn lemma_flag_constants()
    ensures
        flags_wf(0),
        flags_wf(1),
        flags_wf(2),
        flags_wf(4),
        flags_wf(8),
        flags_wf(16),
        flags_wf(32),
        flags_wf(64),
        flags_wf(128),
        flags_wf(256),
        flags_wf(0x8000_0000_0000_0000),
        flags_wf(0x8000_0000_0000_01ff),
{
    assert(0u64 & !0x8000_0000_0000_01ff == 0 && 1u64 & !0x8000_0000_0000_01ff == 0 && 2u64
        & !0x8000_0000_0000_01ff == 0 && 4u64 & !0x8000_0000_0000_01ff == 0 && 8u64
        & !0x8000_0000_0000_01ff == 0 && 16u64 & !0x8000_0000_0000_01ff == 0 && 32u64
        & !0x8000_0000_0000_01ff == 0 && 64u64 & !0x8000_0000_0000_01ff == 0 && 128u64
        & !0x8000_0000_0000_01ff == 0 && 256u64 & !0x8000_0000_0000_01ff == 0
        && 0x8000_0000_0000_0000u64 & !0x8000_0000_0000_01ff == 0 && 0x8000_0000_0000_01ffu64
        & !0x8000_0000_0000_01ff == 0) by (bit_vector);
}

/// The hardware flag bits of a page-table entry.
#[derive(Debug, PartialEq, Eq, Structural, Clone, Copy)]
pub struct EntryFlags {
    bits: u64,
}

impl View for EntryFlags {
    type V = u64;

    closed spec fn view(&self) -> u64 {
        self.bits
    }
}

impl EntryFlags {
    #[verifier::type_invariant]
    closed spec fn type_wf(self) -> bool {
        flags_wf(self.bits)
    }

    /// No flags at all.
    pub fn empty() -> (r: EntryFlags)
        ensures
            r@ == 0,
            flags_wf(r@),
    {
        proof {
            lemma_flag_constants();
        }
        EntryFlags { bits: 0 }
    }

    /// The page is mapped.
    pub fn present() -> (r: EntryFlags)
        ensures
            r@ == 1,
            flags_wf(r@),
    {
        proof {
            lemma_flag_constants();
        }
        EntryFlags { bits: 1 }
    }

    /// The page may be written.
    pub fn writable() -> (r: EntryFlags)
        ensures
            r@ == 2,
            flags_wf(r@),
    {
        proof {
            lemma_flag_constants();
        }
        EntryFlags { bits: 2 }
    }

    /// The page is reachable from user mode.
    pub fn user_accessible() -> (r: EntryFlags)
        ensures
            r@ == 4,
            flags_wf(r@),
    {
        proof {
            lemma_flag_constants();
        }
        EntryFlags { bits: 4 }
    }

    /// Writes go directly to memory.
    pub fn write_through() -> (r: EntryFlags)
        ensures
            r@ == 8,
            flags_wf(r@),
    {
        proof {
            lemma_flag_constants();
        }
        EntryFlags { bits: 8 }
    }

    /// No cache is used for the page.
    pub fn no_cache() -> (r: EntryFlags)
        ensures
            r@ == 16,
            flags_wf(r@),
    {
        proof {
            lemma_flag_constants();
        }
        EntryFlags { bits: 16 }
    }

    /// The hardware sets this bit when the page is accessed.
    pub fn accessed() -> (r: EntryFlags)
        ensures
            r@ == 32,
            flags_wf(r@),
    {
        proof {
            lemma_flag_constants();
        }
        EntryFlags { bits: 32 }
    }

    /// The hardware sets this bit when the page is written.
    pub fn dirty() -> (r: EntryFlags)
        ensures
            r@ == 64,
            flags_wf(r@),
    {
        proof {
            lemma_flag_constants();
        }
        EntryFlags { bits: 64 }
    }

    /// The entry maps a 1 GiB or 2 MiB huge page directly.
    pub fn huge_page() -> (r: EntryFlags)
        ensures
            r@ == 128,
            flags_wf(r@),
    {
        proof {
            lemma_flag_constants();
        }
        EntryFlags { bits: 128 }
    }

    /// The mapping survives an address-space switch.
    pub fn global_page() -> (r: EntryFlags)
        ensures
            r@ == 256,
            flags_wf(r@),
    {
        proof {
            lemma_flag_constants();
        }
        EntryFlags { bits: 256 }
    }

    /// The page must not be executed.
    pub fn nx() -> (r: EntryFlags)
        ensures
            r@ == 0x8000_0000_0000_0000,
            flags_wf(r@),
    {
        proof {
            lemma_flag_constants();
        }
        EntryFlags { bits: 0x8000_0000_0000_0000 }
    }

    /// The flags a loaded section needs: present when it occupies memory,
    /// writable when it may be written, and no-execute unless it holds code.
    /// A section that occupies no memory gets no flags at all and must be
    /// skipped by callers before mapping.
    pub fn from_section(section: &crate::mem_info::Section) -> (r: EntryFlags)
        ensures
            r@ == (if section.allocated {
                1u64
            } else {
                0u64
            }) | (if section.allocated && section.writable {
                2u64
            } else {
                0u64
            }) | (if section.allocated && !section.executable {
                0x8000_0000_0000_0000u64
            } else {
                0u64
            }),
            flags_wf(r@),
            section.allocated ==> entry_present(r@),
            !section.allocated ==> r@ == 0,
    {
        let p: u64 = if section.allocated {
            1
        } else {
            0
        };
        let w: u64 = if section.allocated && section.writable {
            2
        } else {
            0
        };
        let x: u64 = if section.allocated && !section.executable {
            0x8000_0000_0000_0000
        } else {
            0
        };
        let bits: u64 = p | w | x;
        proof {
            assert((p | w | x) & 0x8000_0000_0000_01ff == (p | w | x) && (p == 1 ==> ((p | w | x)
                & 1 == 1)) && (p == 0 && w == 0 && x == 0 ==> (p | w | x) == 0)) by (bit_vector)
                requires
                    p == 1 || p == 0,
                    w == 2 || w == 0,
                    x == 0x8000_0000_0000_0000 || x == 0,
            ;
        }
        EntryFlags::from_bits_truncate(bits)
    }

    /// The given bits, with everything outside the known flags cleared.
    pub fn from_bits_truncate(bits: u64) -> (r: EntryFlags)
        ensures
            r@ == bits & FLAGS_MASK,
            flags_wf(r@),
    {
        proof {
            assert((bits & 0x8000_0000_0000_01ff) & !0x8000_0000_0000_01ff == 0) by (bit_vector);
        }
        EntryFlags { bits: bits & FLAGS_MASK }
    }

    /// The raw flag bits.
    pub fn bits(&self) -> (r: u64)
        ensures
            r == self@,
            flags_wf(self@),
    {
        proof {
            use_type_invariant(self);
        }
        self.bits
    }

    /// All of `other`'s flags are set in `self`.
    pub fn contains(&self, other: EntryFlags) -> (r: bool)
        ensures
            r == (self@ & other@ == other@),
    {
        self.bits & other.bits == other.bits
    }

    /// The flags of both values together.
    pub fn union(self, other: EntryFlags) -> (r: EntryFlags)
        ensures
            r@ == (self@ | other@),
            flags_wf(r@),
    {
        proof {
            use_type_invariant(&self);
            use_type_invariant(&other);
            lemma_flags_or(self.bits, other.bits);
        }
        EntryFlags { bits: self.bits | other.bits }
    }
}

/// One slot of a hardware page table.
#[derive(Debug, PartialEq, Eq, Structural, Clone, Copy)]
pub struct Entry {
    bits: u64,
}

impl View for Entry {
    type V = u64;

    closed spec fn view(&self) -> u64 {
        self.bits
    }
}

impl Entry {
    /// An entry with the given raw bits.
    pub fn from_bits(bits: u64) -> (r: Entry)
        ensures
            r@ == bits,
    {
        Entry { bits }
    }

    /// The entry's raw 64-bit value.
    pub fn bits(&self) -> (r: u64)
        ensures
            r == self@,
    {
        self.bits
    }

    /// The entry's present bit is set.
    pub fn is_present(&self) -> (r: bool)
        ensures
            r == entry_present(self@),
    {
        self.bits & 1 == 1
    }

    /// The entry's huge-page bit is set.
    pub fn is_huge(&self) -> (r: bool)
        ensures
            r == entry_huge(self@),
    {
        self.bits & 0x80 == 0x80
    }

    /// The entry maps nothing and holds nothing: its raw value is zero.
    pub fn unused(&self) -> (r: bool)
        ensures
            r == (self@ == 0),
    {
        self.bits == 0
    }

    /// Clear the entry completely.
    pub fn set_unused(&mut self)
        ensures
            final(self)@ == 0,
    {
        self.bits = 0;
    }

    /// The entry's flag bits.
    pub fn flags(&self) -> (r: EntryFlags)
        ensures
            r@ == self@ & FLAGS_MASK,
    {
        EntryFlags::from_bits_truncate(self.bits)
    }

    /// The physical base address stored in the entry, if it is present.
    pub fn pointed_addr(&self) -> (r: Option<u64>)
        ensures
            r == if entry_present(self@) {
                Some(entry_addr(self@))
            } else {
                None::<u64>
            },
    {
        if self.bits & 1 == 1 {
            Some(self.bits & ADDR_MASK)
        } else {
            None
        }
    }

    /// The frame whose base address is stored in the entry, if present.
    pub fn pointed_frame(&self) -> (r: Option<Frame>)
        ensures
            r matches Some(frame) ==> entry_present(self@) && frame@ == entry_frame(self@),
            r is None ==> !entry_present(self@),
    {
        proof {
            lemma_entry_frame_bound(self.bits);
        }
        match self.pointed_addr() {
            Some(addr) => Some(Frame::containing_addr(addr)),
            None => None,
        }
    }

    /// Point the entry at `frame` with the given flags. The frame's base
    /// address must fit in the address bits.
    pub fn set(&mut self, frame: Frame, flags: EntryFlags)
        requires
            frame@ < MAX_ENTRY_FRAME,
            flags_wf(flags@),
        ensures
            final(self)@ == make_entry(frame@, flags@),
    {
        proof {
            lemma_entry_unpack(frame@, flags@);
        }
        let addr: u64 = frame.start_addr();
        proof {
            let fv: u64 = frame@;
            assert(fv < 0x100_0000_0000 ==> ((fv * 4096) as u64) & !0x000f_ffff_ffff_f000 == 0)
                by (bit_vector);
        }
        assert(addr & !ADDR_MASK == 0);
        self.bits = addr | flags.bits();
    }
}

} // verus!
