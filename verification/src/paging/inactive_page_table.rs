//! A handle to an address space that is not currently loaded: just the frame
//! holding its top-level table.

use vstd::prelude::*;
use crate::frame::Frame;
use crate::frame_allocator::FrameAllocator;
use crate::paging::page::canonical_index;
use crate::paging::entry::{make_entry, MAX_ENTRY_FRAME};
use crate::paging::table::zero_table;
use crate::paging::active_page_table::ActivePageTable;
use crate::paging::temporary_page::TemporaryPage;
use crate::paging::mapper::{
    translate_page_spec,
    l3_table,
    leaf_entry,
    no_huge_on_path,
    leaf_unused,
    missing_tables,
};
use crate::bits::p4_field;

verus! {

/// An address space identified solely by its top-level table's frame. It has
/// no virtual presence until loaded, or until temporarily aliased.
pub struct InactivePageTable {
    p4_frame: Frame,
}

impl InactivePageTable {
    /// The frame holding the top-level table.
    pub closed spec fn frame_spec(&self) -> u64 {
        self.p4_frame@
    }

    /// Build a fresh address space in `frame`: the scratch window is mapped
    /// over the frame, the new table is zeroed and recursively mapped, and
    /// the window is unmapped again, handing `frame` to the window's
    /// micro-allocator.
    pub fn new(
        frame: Frame,
        active_table: &mut ActivePageTable,
        temp_page: &mut TemporaryPage,
    ) -> (r: InactivePageTable)
        requires
            old(active_table).wf(),
            !old(active_table).phys()@.contains_key(frame@),
            frame@ < MAX_ENTRY_FRAME,
            p4_field(old(temp_page).page_spec()) != 511,
            translate_page_spec(
                old(active_table).phys(),
                old(active_table).root(),
                old(temp_page).page_spec(),
            ) is None,
            leaf_unused(
                old(active_table).phys(),
                old(active_table).root(),
                old(temp_page).page_spec(),
            ),
            no_huge_on_path(
                old(active_table).phys(),
                old(active_table).root(),
                old(temp_page).page_spec(),
            ),
            old(temp_page).allocator().can_supply(
                missing_tables(
                    old(active_table).phys(),
                    old(active_table).root(),
                    old(temp_page).page_spec(),
                ),
            ),
            missing_tables(
                old(active_table).phys(),
                old(active_table).root(),
                old(temp_page).page_spec(),
            ) > 0 ==> old(temp_page).allocator().avail().disjoint(
                old(active_table).phys()@.dom(),
            ),
            missing_tables(
                old(active_table).phys(),
                old(active_table).root(),
                old(temp_page).page_spec(),
            ) == 0 ==> old(temp_page).allocator().can_release(frame@),
            !old(temp_page).allocator().avail().contains(frame@),
            old(temp_page).allocator().wf(),
        ensures
            r.frame_spec() == frame@,
            final(active_table).wf(),
            final(active_table).root() == old(active_table).root(),
            final(active_table).phys().is_root(frame@),
            final(active_table).phys()@[frame@] == zero_table().update(
                511,
                make_entry(frame@, 3),
            ),
            forall|q: u64| #![trigger p4_field(q)]
                p4_field(q) != 511 ==> l3_table(final(active_table).phys(), frame@, q) is None
                    && leaf_entry(final(active_table).phys(), frame@, q) == 0
                    && translate_page_spec(final(active_table).phys(), frame@, q) is None
                    && no_huge_on_path(final(active_table).phys(), frame@, q),
            forall|r2: u64, q: u64|
                #![trigger translate_page_spec(final(active_table).phys(), r2, q)]
                old(active_table).phys().is_root(r2) && p4_field(q) != 511 && canonical_index(
                    q as int,
                ) && q != old(temp_page).page_spec() ==> translate_page_spec(
                    final(active_table).phys(),
                    r2,
                    q,
                ) == translate_page_spec(old(active_table).phys(), r2, q),
            translate_page_spec(
                final(active_table).phys(),
                final(active_table).root(),
                old(temp_page).page_spec(),
            ) is None,
            forall|g: u64| #[trigger]
                old(active_table).phys()@.contains_key(g) ==> final(active_table).phys()@.contains_key(g) && final(active_table).phys().lvl(g) == old(active_table).phys().lvl(g),
            final(temp_page).page_spec() == old(temp_page).page_spec(),
            final(temp_page).page_of() == old(temp_page).page_of(),
    {
        let ghost scratch = temp_page.page_spec();
        let ghost m0 = active_table.phys();
        let ghost r0 = active_table.root();
        let ghost tiny0 = temp_page.allocator();
        temp_page.map(frame, active_table);
        let ghost m1 = active_table.phys();
        proof {
            assert(!m1@.contains_key(frame@)) by {
                assert forall|g: u64| #[trigger] m1@.contains_key(g) && !m0@.contains_key(
                    g,
                ) implies g != frame@ by {}
            }
        }
        active_table.mapper().install_root(frame);
        let ghost m2 = active_table.phys();
        proof {
            assert(crate::paging::entry::flags_wf(3)) by {
                assert(3u64 & !0x8000_0000_0000_01ff == 0) by (bit_vector);
            }
            // the scratch leaf survives the install of the new root
            assert(m1.is_root(r0));
            assert(leaf_entry(m2, r0, scratch) == leaf_entry(m1, r0, scratch));
            assert(crate::paging::entry::entry_present(leaf_entry(m2, r0, scratch))) by {
                crate::paging::entry::lemma_entry_unpack(frame@, 3);
                assert(3u64 & 1 == 1) by (bit_vector);
            }
            assert(crate::paging::mapper::l1_table(m2, r0, scratch) is Some) by {
                crate::paging::entry::lemma_zero_entry();
                crate::paging::entry::lemma_entry_unpack(frame@, 3);
                assert(leaf_entry(m2, r0, scratch) != 0);
            }
            // the frame about to be released can be taken back
            assert(crate::paging::entry::entry_frame(leaf_entry(m2, r0, scratch)) == frame@) by {
                crate::paging::entry::lemma_entry_unpack(frame@, 3);
            }
            assert(temp_page.allocator().can_release(frame@)) by {
                if missing_tables(m0, r0, scratch) == 0 {
                    assert(temp_page.allocator() == tiny0);
                } else {
                    let g = choose|g: u64|
                        #[trigger] temp_page.allocator().can_release(g)
                            && !temp_page.allocator().avail().contains(g);
                    assert(temp_page.allocator().can_release(g));
                    assert(!temp_page.allocator().avail().contains(frame@));
                }
            }
        }
        temp_page.unmap(active_table);
        proof {
            let m3 = active_table.phys();
            assert(frame@ != r0);
            assert(m2.is_root(frame@));
            assert forall|q: u64| p4_field(q) != 511 implies #[trigger] p4_field(q) != 511
                && l3_table(m3, frame@, q) is None && leaf_entry(m3, frame@, q) == 0
                && translate_page_spec(m3, frame@, q) is None && no_huge_on_path(
                m3,
                frame@,
                q,
            ) by {
                assert(l3_table(m2, frame@, q) is None && leaf_entry(m2, frame@, q) == 0
                    && translate_page_spec(m2, frame@, q) is None && no_huge_on_path(
                    m2,
                    frame@,
                    q,
                ));
                assert(l3_table(m3, frame@, q) == l3_table(m2, frame@, q));
                assert(leaf_entry(m3, frame@, q) == leaf_entry(m2, frame@, q));
            }
            assert(m3@[frame@] == m2@[frame@]) by {
                assert(m2.lvl(frame@) == 4);
            }
        }
        InactivePageTable { p4_frame: frame }
    }

    /// Wrap a frame that already holds a top-level table.
    pub fn new_from_p4_frame(f: Frame) -> (r: InactivePageTable)
        ensures
            r.frame_spec() == f@,
    {
        InactivePageTable { p4_frame: f }
    }

    /// The frame holding the top-level table.
    pub fn p4_frame(&self) -> (r: Frame)
        ensures
            r@ == self.frame_spec(),
    {
        self.p4_frame
    }
}

} // verus!
