//! The one address space currently loaded into the hardware page-table base
//! register, modelled as the mapper rooted at that register's frame.

use vstd::prelude::*;
use crate::frame::Frame;
use crate::paging::phys_mem::PhysMem;
use crate::paging::mapper::Mapper;
use crate::paging::mapper::{
    translate_page_spec,
    l3_table,
    l2_table,
    l1_table,
    leaf_entry,
    no_huge_on_path,
    leaf_unused,
    missing_tables,
};
use crate::paging::inactive_page_table::InactivePageTable;
use crate::frame_allocator::FrameAllocator;
use crate::paging::temporary_page::TemporaryPage;
use crate::paging::page::canonical_index;
use crate::paging::entry::{make_entry, entry_frame, entry_present, MAX_ENTRY_FRAME};
use crate::bits::p4_field;

verus! {

/// What the bootstrap protocol hands the caller's closure: a well-formed
/// mapper rooted at the inactive table, whose tree reads exactly as it did
/// before the protocol began, over a memory that has grown by at most the
/// scratch window's own table frames.
pub open spec fn with_inner_pre(m0: PhysMem, tf: u64, extra: Set<u64>, m: Mapper) -> bool {
    &&& m.wf()
    &&& m.root() == tf
    &&& forall|q: u64|
        #![trigger l3_table(m.phys(), tf, q)]
        #![trigger l1_table(m.phys(), tf, q)]
        #![trigger leaf_entry(m.phys(), tf, q)]
        p4_field(q) != 511 ==> {
            &&& l3_table(m.phys(), tf, q) == l3_table(m0, tf, q)
            &&& l2_table(m.phys(), tf, q) == l2_table(m0, tf, q)
            &&& l1_table(m.phys(), tf, q) == l1_table(m0, tf, q)
            &&& leaf_entry(m.phys(), tf, q) == leaf_entry(m0, tf, q)
            &&& no_huge_on_path(m.phys(), tf, q) == no_huge_on_path(m0, tf, q)
        }
    &&& forall|g: u64| #[trigger]
        m0@.contains_key(g) ==> m.phys()@.contains_key(g) && m.phys().lvl(g) == m0.lvl(g)
    &&& forall|g: u64| #[trigger]
        m.phys()@.contains_key(g) ==> m0@.contains_key(g) || extra.contains(g)
}

/// What the closure must leave behind: a well-formed state, still rooted at
/// the inactive table, in which every table survived and the tree of the
/// interrupted active space (rooted at `backup`) reads as before.
pub open spec fn with_inner_post(backup: u64, m: Mapper, mo: Mapper) -> bool {
    &&& mo.wf()
    &&& mo.root() == m.root()
    &&& forall|g: u64| #[trigger]
        m.phys()@.contains_key(g) ==> mo.phys()@.contains_key(g) && mo.phys().lvl(g)
            == m.phys().lvl(g)
    &&& forall|q: u64|
        #![trigger l1_table(mo.phys(), backup, q)]
        #![trigger leaf_entry(mo.phys(), backup, q)]
        p4_field(q) != 511 ==> {
            &&& l1_table(mo.phys(), backup, q) == l1_table(m.phys(), backup, q)
            &&& leaf_entry(mo.phys(), backup, q) == leaf_entry(m.phys(), backup, q)
        }
    &&& forall|q: u64| #![trigger translate_page_spec(mo.phys(), backup, q)]
        p4_field(q) != 511 && canonical_index(q as int) ==> translate_page_spec(
            mo.phys(),
            backup,
            q,
        ) == translate_page_spec(m.phys(), backup, q)
}

/// The live address space: exactly one exists per running core.
pub struct ActivePageTable {
    mapper: Mapper,
}

impl ActivePageTable {
    /// The mapper bound to the live address space.
    pub closed spec fn as_mapper(&self) -> Mapper {
        self.mapper
    }

    /// The physical memory the live tree sits in.
    pub open spec fn phys(&self) -> PhysMem {
        self.as_mapper().phys()
    }

    /// The frame of the live level-4 table: the model of the hardware
    /// table-base register.
    pub open spec fn root(&self) -> u64 {
        self.as_mapper().root()
    }

    /// The memory is well formed and the loaded root is a level-4 table.
    pub open spec fn wf(&self) -> bool {
        self.as_mapper().wf()
    }

    /// Bind the live address space: `p4` is the frame the table-base
    /// register holds, and `mem` the physical memory its tree sits in.
    pub fn new(mem: PhysMem, p4: Frame) -> (r: ActivePageTable)
        requires
            mem.wf(),
            mem.is_root(p4@),
        ensures
            r.wf(),
            r.phys() == mem,
            r.root() == p4@,
    {
        ActivePageTable { mapper: Mapper::new(mem, p4) }
    }

    /// The live tree's mapper, for mapping, unmapping and translating.
    pub fn mapper(&mut self) -> (r: &mut Mapper)
        ensures
            *r == old(self).as_mapper(),
            final(self).as_mapper() == *final(r),
    {
        &mut self.mapper
    }

    /// The live tree's mapper, read-only.
    pub fn mapper_ref(&self) -> (r: &Mapper)
        ensures
            *r == self.as_mapper(),
    {
        &self.mapper
    }

    /// Temporarily alias the recursive slot of the live table so that the
    /// ordinary mapper API, run by `f`, edits `table`'s tree instead of the
    /// live one: the live top-level frame is kept reachable through the
    /// scratch window, the recursive slot is repointed (the hardware flushes
    /// the whole TLB here), `f` runs against the inactive tree, and the slot
    /// is restored and the window unmapped. `aux` is threaded through `f`
    /// and handed back.
    pub fn with<A, F: FnOnce(Mapper, A) -> (Mapper, A)>(
        &mut self,
        table: &mut InactivePageTable,
        temp_page: &mut TemporaryPage,
        aux: A,
        f: F,
    ) -> (r: A)
        requires
            old(self).wf(),
            old(self).root() < MAX_ENTRY_FRAME,
            old(self).phys().is_root(old(table).frame_spec()),
            old(table).frame_spec() != old(self).root(),
            old(table).frame_spec() < MAX_ENTRY_FRAME,
            p4_field(old(temp_page).page_spec()) != 511,
            translate_page_spec(
                old(self).phys(),
                old(self).root(),
                old(temp_page).page_spec(),
            ) is None,
            leaf_unused(old(self).phys(), old(self).root(), old(temp_page).page_spec()),
            no_huge_on_path(old(self).phys(), old(self).root(), old(temp_page).page_spec()),
            old(temp_page).allocator().can_supply(
                missing_tables(old(self).phys(), old(self).root(), old(temp_page).page_spec()),
            ),
            missing_tables(old(self).phys(), old(self).root(), old(temp_page).page_spec()) > 0
                ==> old(temp_page).allocator().avail().disjoint(old(self).phys()@.dom()),
            missing_tables(old(self).phys(), old(self).root(), old(temp_page).page_spec()) == 0
                ==> old(temp_page).allocator().can_release(old(self).root()),
            !old(temp_page).allocator().avail().contains(old(self).root()),
            forall|m: Mapper, a: A|
                with_inner_pre(
                    old(self).phys(),
                    old(table).frame_spec(),
                    old(temp_page).allocator().avail(),
                    m,
                ) && a == aux ==> #[trigger] call_requires(f, (m, a)),
            forall|m: Mapper, a: A, mo: Mapper, ro: A|
                with_inner_pre(
                    old(self).phys(),
                    old(table).frame_spec(),
                    old(temp_page).allocator().avail(),
                    m,
                ) && #[trigger] call_ensures(f, (m, a), (mo, ro)) ==> with_inner_post(
                    old(self).root(),
                    m,
                    mo,
                ),
        ensures
            final(self).wf(),
            final(self).root() == old(self).root(),
            final(table).frame_spec() == old(table).frame_spec(),
            final(temp_page).page_spec() == old(temp_page).page_spec(),
            final(temp_page).page_of() == old(temp_page).page_of(),
            exists|m_in: Mapper, m_out: Mapper|
                {
                    &&& with_inner_pre(
                        old(self).phys(),
                        old(table).frame_spec(),
                        old(temp_page).allocator().avail(),
                        m_in,
                    )
                    &&& #[trigger] call_ensures(f, (m_in, aux), (m_out, r))
                    &&& forall|q: u64|
                        #![trigger translate_page_spec(final(self).phys(), old(table).frame_spec(), q)]
                        p4_field(q) != 511 && canonical_index(q as int) ==> translate_page_spec(
                            final(self).phys(),
                            old(table).frame_spec(),
                            q,
                        ) == translate_page_spec(m_out.phys(), old(table).frame_spec(), q)
                    &&& forall|q: u64|
                        #![trigger leaf_entry(final(self).phys(), old(table).frame_spec(), q)]
                        p4_field(q) != 511 ==> leaf_entry(
                            final(self).phys(),
                            old(table).frame_spec(),
                            q,
                        ) == leaf_entry(m_out.phys(), old(table).frame_spec(), q)
                            && no_huge_on_path(final(self).phys(), old(table).frame_spec(), q)
                            == no_huge_on_path(m_out.phys(), old(table).frame_spec(), q)
                },
            forall|g: u64| #[trigger]
                old(self).phys()@.contains_key(g) ==> final(self).phys()@.contains_key(g)
                    && final(self).phys().lvl(g) == old(self).phys().lvl(g),
            forall|q: u64|
                #![trigger translate_page_spec(final(self).phys(), old(self).root(), q)]
                p4_field(q) != 511 && canonical_index(q as int) && q != old(
                    temp_page,
                ).page_spec() ==> translate_page_spec(final(self).phys(), old(self).root(), q)
                    == translate_page_spec(old(self).phys(), old(self).root(), q),
            translate_page_spec(
                final(self).phys(),
                final(self).root(),
                old(temp_page).page_spec(),
            ) is None,
    {
        let ghost m0 = self.phys();
        let ghost r0 = self.root();
        let ghost scratch = temp_page.page_spec();
        let ghost tf = table.frame_spec();
        let ghost tiny0 = temp_page.allocator();
        let backup: Frame = self.mapper.root_frame();
        // keep the active top-level table reachable through the window
        temp_page.map(backup, self);
        let ghost m1 = self.phys();
        // repoint the live recursive slot at the inactive table; the
        // hardware flushes the whole TLB at this moment
        self.mapper.point_recursive(backup.index(), table.p4_frame());
        let ghost m2 = self.phys();
        proof {
            assert(m2@.dom() =~= m1@.dom());
        }
        // run `f` against the inactive tree
        let mut inner: Mapper = Mapper::detached();
        std::mem::swap(&mut self.mapper, &mut inner);
        inner.set_root(table.p4_frame());
        let ghost m_in_v = inner;
        proof {
            assert(with_inner_pre(m0, tf, tiny0.avail(), inner)) by {
                assert(inner.phys() == m2);
                assert(m2.is_root(tf));
            }
        }
        let fout = f(inner, aux);
        let mut mret = fout.0;
        let aux_out = fout.1;
        let ghost m_out_v = mret;
        proof {
            assert(with_inner_post(r0, m_in_v, mret));
        }
        // restore the recursive slot from the backup and come back
        mret.set_root(backup);
        mret.point_recursive(backup.index(), backup);
        let ghost m4 = mret.phys();
        std::mem::swap(&mut self.mapper, &mut mret);
        proof {
            assert(self.as_mapper().phys() == m4);
            assert(self.as_mapper().root() == backup@);
            // the scratch leaf survived the whole protocol
            assert(crate::paging::entry::flags_wf(3)) by {
                assert(3u64 & !0x8000_0000_0000_01ff == 0) by (bit_vector);
            }
            crate::paging::entry::lemma_entry_unpack(backup@, 3);
            assert(3u64 & 1 == 1) by (bit_vector);
            assert(m_in_v.phys().is_root(r0));
            assert(m_out_v.phys().is_root(r0));
            assert(leaf_entry(m2, r0, scratch) == make_entry(backup@, 3));
            assert(leaf_entry(m_out_v.phys(), r0, scratch) == make_entry(backup@, 3));
            assert(leaf_entry(m4, r0, scratch) == make_entry(backup@, 3));
            assert(entry_present(leaf_entry(m4, r0, scratch)));
            assert(l1_table(m4, r0, scratch) is Some) by {
                crate::paging::entry::lemma_zero_entry();
                assert(leaf_entry(m4, r0, scratch) != 0);
            }
            assert(entry_frame(leaf_entry(m4, r0, scratch)) == backup@);
            // and the window's frame can go back to the micro-allocator
            assert(temp_page.allocator().can_release(backup@)) by {
                if missing_tables(m0, r0, scratch) == 0 {
                    assert(temp_page.allocator() == tiny0);
                } else {
                    let g = choose|g: u64|
                        #[trigger] temp_page.allocator().can_release(g) && !temp_page.allocator().avail().contains(g);
                    assert(temp_page.allocator().can_release(g));
                    assert(!temp_page.allocator().avail().contains(backup@));
                }
            }
        }
        temp_page.unmap(self);
        proof {
            let m5 = self.phys();
            assert(m_out_v.phys().is_root(tf));
            assert(m4.is_root(tf)) by {
                assert(m4@ == m_out_v.phys()@.insert(
                    backup@,
                    m_out_v.phys()@[backup@].update(511, make_entry(backup@, 3)),
                ));
            }
            assert forall|q: u64|
                #![trigger translate_page_spec(m5, tf, q)]
                p4_field(q) != 511 && canonical_index(q as int) implies translate_page_spec(
                m5,
                tf,
                q,
            ) == translate_page_spec(m_out_v.phys(), tf, q) by {
                assert(translate_page_spec(m4, tf, q) == translate_page_spec(
                    m_out_v.phys(),
                    tf,
                    q,
                ));
            }
            assert forall|q: u64|
                #![trigger leaf_entry(m5, tf, q)]
                p4_field(q) != 511 implies leaf_entry(m5, tf, q) == leaf_entry(
                m_out_v.phys(),
                tf,
                q,
            ) && no_huge_on_path(m5, tf, q) == no_huge_on_path(m_out_v.phys(), tf, q) by {
                assert(leaf_entry(m4, tf, q) == leaf_entry(m_out_v.phys(), tf, q));
                assert(no_huge_on_path(m4, tf, q) == no_huge_on_path(m_out_v.phys(), tf, q));
            }
            assert forall|g: u64| #[trigger] m0@.contains_key(g) implies m5@.contains_key(g)
                && m5.lvl(g) == m0.lvl(g) by {
                assert(m1@.contains_key(g) && m1.lvl(g) == m0.lvl(g));
                assert(m2@.contains_key(g) && m2.lvl(g) == m1.lvl(g));
                assert(m_out_v.phys()@.contains_key(g) && m_out_v.phys().lvl(g) == m2.lvl(g));
                assert(m4@.contains_key(g) && m4.lvl(g) == m_out_v.phys().lvl(g)) by {
                    assert(m4@ == m_out_v.phys()@.insert(
                        backup@,
                        m_out_v.phys()@[backup@].update(
                            511,
                            make_entry(backup@, 3),
                        ),
                    ));
                }
                assert(m5@.contains_key(g) && m5.lvl(g) == m4.lvl(g));
            }
            assert forall|q: u64|
                #![trigger translate_page_spec(m5, r0, q)]
                p4_field(q) != 511 && canonical_index(q as int) && q != scratch implies
                translate_page_spec(m5, r0, q) == translate_page_spec(m0, r0, q) by {
                assert(translate_page_spec(m1, r0, q) == translate_page_spec(m0, r0, q));
                assert(translate_page_spec(m2, r0, q) == translate_page_spec(m1, r0, q));
                assert(translate_page_spec(m_out_v.phys(), r0, q) == translate_page_spec(
                    m2,
                    r0,
                    q,
                ));
                assert(translate_page_spec(m4, r0, q) == translate_page_spec(
                    m_out_v.phys(),
                    r0,
                    q,
                ));
                assert(translate_page_spec(m5, r0, q) == translate_page_spec(m4, r0, q));
            }
        }
        aux_out
    }

    /// Load `new_table` into the table-base register and hand back the
    /// address space that was live until now, so it can be reclaimed.
    pub fn switch(&mut self, new_table: InactivePageTable) -> (r: InactivePageTable)
        requires
            old(self).wf(),
            old(self).phys().is_root(new_table.frame_spec()),
        ensures
            final(self).wf(),
            final(self).phys() == old(self).phys(),
            final(self).root() == new_table.frame_spec(),
            r.frame_spec() == old(self).root(),
    {
        let old_frame = self.mapper.root_frame();
        let old_table = InactivePageTable::new_from_p4_frame(old_frame);
        self.mapper.set_root(new_table.p4_frame());
        old_table
    }
}

} // verus!
