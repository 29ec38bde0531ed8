//! One 512-entry node of the page-table tree. Which level a table sits at is
//! tracked by the physical-memory model that owns it; descent is guarded by
//! the mapper.

use vstd::prelude::*;
use crate::ENTRY_COUNT;
use crate::frame::Frame;
use crate::paging::entry::{Entry, entry_present, entry_huge, entry_frame, lemma_entry_frame_bound};

verus! {

/// A table whose 512 entries all map nothing.
pub open spec fn zero_table() -> Seq<u64> {
    Seq::new(512, |i: int| 0u64)
}

/// The frames pointed to by the present, non-huge entries of a table, in
/// entry order.
pub open spec fn children_of(s: Seq<u64>) -> Seq<u64>
    decreases s.len(),
{
    if s.len() == 0 {
        Seq::empty()
    } else {
        children_of(s.drop_last()) + if entry_present(s.last()) && !entry_huge(s.last()) {
            seq![entry_frame(s.last())]
        } else {
            Seq::empty()
        }
    }
}

/// Every present, non-huge entry's frame is among the children.
pub proof fn lemma_children_of_contains(s: Seq<u64>, i: int)
    requires
        0 <= i < s.len(),
        entry_present(s[i]),
        !entry_huge(s[i]),
    ensures
        children_of(s).contains(entry_frame(s[i])),
    decreases s.len(),
{
    if i + 1 == s.len() {
        assert(children_of(s).last() == entry_frame(s[i]));
    } else {
        lemma_children_of_contains(s.drop_last(), i);
        let k = choose|k: int|
            0 <= k < children_of(s.drop_last()).len() && children_of(s.drop_last())[k]
                == entry_frame(s[i]);
        assert(children_of(s)[k] == entry_frame(s[i]));
    }
}

/// Every child comes from some present, non-huge entry.
pub proof fn lemma_children_of_member(s: Seq<u64>, x: u64)
    requires
        children_of(s).contains(x),
    ensures
        exists|i: int|
            0 <= i < s.len() && entry_present(#[trigger] s[i]) && !entry_huge(s[i])
                && entry_frame(s[i]) == x,
    decreases s.len(),
{
    if s.len() > 0 {
        let rest = children_of(s.drop_last());
        if entry_present(s.last()) && !entry_huge(s.last()) && entry_frame(s.last()) == x {
            assert(entry_present(s[s.len() - 1]) && !entry_huge(s[s.len() - 1]) && entry_frame(
                s[s.len() - 1],
            ) == x);
        } else {
            assert(rest.contains(x)) by {
                let k = choose|k: int| 0 <= k < children_of(s).len() && children_of(s)[k] == x;
                assert(k < rest.len());
                assert(rest[k] == x);
            }
            lemma_children_of_member(s.drop_last(), x);
            let i = choose|i: int|
                0 <= i < s.drop_last().len() && entry_present(#[trigger] s.drop_last()[i])
                    && !entry_huge(s.drop_last()[i]) && entry_frame(s.drop_last()[i]) == x;
            assert(entry_present(s[i]) && !entry_huge(s[i]) && entry_frame(s[i]) == x);
        }
    }
}

/// A 512-entry node in the page-table tree.
#[derive(Debug)]
pub struct Table {
    entries: Vec<u64>,
}

impl View for Table {
    type V = Seq<u64>;

    closed spec fn view(&self) -> Seq<u64> {
        self.entries@
    }
}

impl Table {
    /// The table holds exactly 512 entries.
    pub open spec fn wf(&self) -> bool {
        self@.len() == 512
    }

    /// A fresh table with every entry cleared.
    pub fn new() -> (r: Table)
        ensures
            r.wf(),
            r@ == zero_table(),
    {
        let entries: Vec<u64> = vec![0u64; 512];
        proof {
            assert(entries@ =~= zero_table());
        }
        Table { entries }
    }

    /// Clear all 512 entries.
    pub fn zero(&mut self)
        ensures
            final(self).wf(),
            final(self)@ == zero_table(),
    {
        let entries: Vec<u64> = vec![0u64; 512];
        proof {
            assert(entries@ =~= zero_table());
        }
        self.entries = entries;
    }

    /// The entry in the given slot.
    pub fn entry(&self, index: usize) -> (r: Entry)
        requires
            self.wf(),
            index < ENTRY_COUNT,
        ensures
            r@ == self@[index as int],
    {
        Entry::from_bits(self.entries[index])
    }

    /// Replace the entry in the given slot.
    pub fn set_entry(&mut self, index: usize, entry: Entry)
        requires
            old(self).wf(),
            index < ENTRY_COUNT,
        ensures
            final(self).wf(),
            final(self)@ == old(self)@.update(index as int, entry@),
    {
        let slot: &mut u64 = &mut self.entries[index];
        *slot = entry.bits();
    }

    /// A snapshot of all 512 entries, in slot order.
    pub fn iter(&self) -> (r: Vec<Entry>)
        requires
            self.wf(),
        ensures
            r@.len() == 512,
            forall|i: int| 0 <= i < 512 ==> r@[i]@ == self@[i],
    {
        let mut out: Vec<Entry> = Vec::new();
        let mut i: usize = 0;
        while i < ENTRY_COUNT
            invariant
                self.wf(),
                i <= 512,
                out@.len() == i,
                forall|j: int| 0 <= j < i ==> out@[j]@ == self@[j],
            decreases 512 - i,
        {
            out.push(self.entry(i));
            i = i + 1;
        }
        out
    }

    /// The frames of this table's present, non-huge child entries, in entry
    /// order.
    pub fn children(&self) -> (r: Vec<Frame>)
        requires
            self.wf(),
        ensures
            r@.map_values(|f: Frame| f@) == children_of(self@),
    {
        let mut out: Vec<Frame> = Vec::new();
        let mut i: usize = 0;
        while i < ENTRY_COUNT
            invariant
                self.wf(),
                i <= 512,
                out@.map_values(|f: Frame| f@) == children_of(self@.take(i as int)),
            decreases 512 - i,
        {
            let e = self.entry(i);
            let ghost prefix = self@.take(i as int);
            proof {
                assert(self@.take(i + 1).drop_last() =~= prefix);
                assert(self@.take(i + 1).last() == self@[i as int]);
            }
            match e.pointed_frame() {
                Some(frame) => {
                    if !e.is_huge() {
                        out.push(frame);
                        proof {
                            assert(out@.map_values(|f: Frame| f@) =~= children_of(
                                self@.take(i + 1),
                            ));
                        }
                    } else {
                        proof {
                            assert(out@.map_values(|f: Frame| f@) =~= children_of(
                                self@.take(i + 1),
                            ));
                        }
                    }
                },
                None => {
                    proof {
                        assert(out@.map_values(|f: Frame| f@) =~= children_of(self@.take(i + 1)));
                    }
                },
            }
            i = i + 1;
        }
        proof {
            assert(self@.take(512) =~= self@);
        }
        out
    }
}

} // verus!
