//! The mapper: walks and edits the page-table tree rooted at a level-4
//! table, against the physical-memory model.

use vstd::prelude::*;
use crate::frame::Frame;
use crate::frame_set::vec_set::VecFrameSet;
use crate::frame_set::FrameSet;
use crate::frame_set::FrameSetMut;
use crate::paging::page::{Page, canonical_addr, canonical_index, lemma_page_canonical};
use crate::paging::phys_mem::PhysMem;
use crate::paging::table::zero_table;
use crate::frame_allocator::FrameAllocator;
use crate::paging::entry::{
    Entry,
    EntryFlags,
    entry_present,
    entry_huge,
    entry_frame,
    make_entry,
    flags_wf,
    lemma_entry_unpack,
    lemma_entry_frame_bound,
    lemma_zero_entry,
    MAX_ENTRY_FRAME,
};
use crate::bits::{p4_field, p3_field, p2_field, p1_field, lemma_fields_bounded};
use crate::PAGE_SIZE;

verus! {

/// Entry `i` of the table in frame `t`; frames that hold no table read as
/// zeroed memory.
pub open spec fn entry_at(m: PhysMem, t: u64, i: int) -> u64 {
    if m@.contains_key(t) {
        m@[t][i]
    } else {
        0
    }
}

/// The level-3 table on the page's path, if the level-4 entry points at one.
pub open spec fn l3_table(m: PhysMem, r: u64, pi: u64) -> Option<u64> {
    let e = entry_at(m, r, p4_field(pi));
    if entry_present(e) && !entry_huge(e) {
        Some(entry_frame(e))
    } else {
        None
    }
}

/// The level-2 table on the page's path.
pub open spec fn l2_table(m: PhysMem, r: u64, pi: u64) -> Option<u64> {
    match l3_table(m, r, pi) {
        Some(t3) => {
            let e = entry_at(m, t3, p3_field(pi));
            if entry_present(e) && !entry_huge(e) {
                Some(entry_frame(e))
            } else {
                None
            }
        },
        None => None,
    }
}

/// The level-1 table on the page's path.
pub open spec fn l1_table(m: PhysMem, r: u64, pi: u64) -> Option<u64> {
    match l2_table(m, r, pi) {
        Some(t2) => {
            let e = entry_at(m, t2, p2_field(pi));
            if entry_present(e) && !entry_huge(e) {
                Some(entry_frame(e))
            } else {
                None
            }
        },
        None => None,
    }
}

/// The page's level-1 entry; zero when the path has no level-1 table.
pub open spec fn leaf_entry(m: PhysMem, r: u64, pi: u64) -> u64 {
    match l1_table(m, r, pi) {
        Some(t1) => entry_at(m, t1, p1_field(pi)),
        None => 0,
    }
}

/// The frame that the page with index `pi` translates to under root `r`:
/// the ordinary four-level walk, or a 1 GiB / 2 MiB huge mapping at level 3
/// or 2.
pub open spec fn translate_page_spec(m: PhysMem, r: u64, pi: u64) -> Option<u64> {
    if entry_present(leaf_entry(m, r, pi)) {
        Some(entry_frame(leaf_entry(m, r, pi)))
    } else {
        match l3_table(m, r, pi) {
            Some(t3) => {
                let e3 = entry_at(m, t3, p3_field(pi));
                if entry_present(e3) && entry_huge(e3) {
                    Some((entry_frame(e3) + p2_field(pi) * 512 + p1_field(pi)) as u64)
                } else {
                    match l2_table(m, r, pi) {
                        Some(t2) => {
                            let e2 = entry_at(m, t2, p2_field(pi));
                            if entry_present(e2) && entry_huge(e2) {
                                Some((entry_frame(e2) + p1_field(pi)) as u64)
                            } else {
                                None
                            }
                        },
                        None => None,
                    }
                }
            },
            None => None,
        }
    }
}

/// The physical address that virtual address `va` translates to.
pub open spec fn translate_spec(m: PhysMem, r: u64, va: u64) -> Option<u64> {
    match translate_page_spec(m, r, va / 4096) {
        Some(f) => Some((f * 4096 + va % 4096) as u64),
        None => None,
    }
}

/// The walk of page `pi` from root `r` reads slot `i` of table `t`.
pub open spec fn walk_reads(m: PhysMem, r: u64, pi: u64, t: u64, i: int) -> bool {
    ||| (t == r && i == p4_field(pi))
    ||| (l3_table(m, r, pi) == Some(t) && i == p3_field(pi))
    ||| (l2_table(m, r, pi) == Some(t) && i == p2_field(pi))
    ||| (l1_table(m, r, pi) == Some(t) && i == p1_field(pi))
}

/// A view, not an owner, of the table tree rooted at a level-4 table,
/// together with the physical memory the tree lives in.
pub struct Mapper {
    mem: PhysMem,
    p4: Frame,
}

impl Mapper {
    /// The physical memory the mapper works in.
    pub closed spec fn phys(&self) -> PhysMem {
        self.mem
    }

    /// The frame of the level-4 table the mapper is rooted at.
    pub closed spec fn root(&self) -> u64 {
        self.p4@
    }

    /// The memory is well formed and the root is a level-4 table.
    pub open spec fn wf(&self) -> bool {
        self.phys().wf() && self.phys().is_root(self.root())
    }

    /// A mapper rooted at the level-4 table in `p4`.
    pub fn new(mem: PhysMem, p4: Frame) -> (r: Mapper)
        requires
            mem.wf(),
            mem.is_root(p4@),
        ensures
            r.wf(),
            r.phys() == mem,
            r.root() == p4@,
    {
        Mapper { mem, p4 }
    }

    /// Take the mapper apart into its memory and root frame.
    pub fn into_parts(self) -> (r: (PhysMem, Frame))
        ensures
            r.0 == self.phys(),
            r.1@ == self.root(),
    {
        let Mapper { mem, p4 } = self;
        (mem, p4)
    }

    /// Borrow the level-4 table at the root of this view.
    pub fn p4(&self) -> (r: &crate::paging::table::Table)
        requires
            self.wf(),
        ensures
            r@ == self.phys()@[self.root()],
            r.wf(),
    {
        self.mem.table_ref(self.p4.index())
    }

    /// The frame that `page` is mapped to, if any, through ordinary or huge
    /// mappings, as the hardware walk would resolve it.
    pub fn translate_page(&self, page: Page) -> (r: Option<Frame>)
        requires
            self.wf(),
            p4_field(page@) != 511,
        ensures
            match r {
                Some(frame) => translate_page_spec(self.phys(), self.root(), page@) == Some(
                    frame@,
                ),
                None => translate_page_spec(self.phys(), self.root(), page@) is None,
            },
    {
        proof {
            lemma_fields_bounded(page@);
            lemma_zero_entry();
        }
        let e4 = Entry::from_bits(self.mem.read_entry(self.p4.index(), page.p4_index()));
        if !e4.is_present() || e4.is_huge() {
            return None;
        }
        proof {
            assert(self.phys().child_slot(self.root(), p4_field(page@)));
        }
        let t3 = self.mem.read_entry(self.p4.index(), page.p4_index()) & 0x000f_ffff_ffff_f000;
        let t3 = t3 >> 12;
        proof {
            lemma_entry_frame_bound(entry_at(self.phys(), self.root(), p4_field(page@)));
        }
        let e3 = Entry::from_bits(self.mem.read_entry(t3, page.p3_index()));
        if e3.is_present() && e3.is_huge() {
            // a 1 GiB mapping: the base must be aligned to 512 * 512 frames
            proof {
                lemma_zero_entry();
                assert(self.phys().huge_slot(t3, p3_field(page@)));
                lemma_entry_frame_bound(entry_at(self.phys(), t3, p3_field(page@)));
            }
            let base = match e3.pointed_frame() {
                Some(f) => f,
                None => Frame::containing_addr(0),
            };
            assert(base@ % 0x40000 == 0);
            let idx = base.index() + (page.p2_index() as u64) * 512 + (page.p1_index() as u64);
            return Some(Frame::new(idx));
        }
        if !e3.is_present() {
            return None;
        }
        proof {
            assert(self.phys().child_slot(t3, p3_field(page@)));
        }
        let t2 = e3.bits() & 0x000f_ffff_ffff_f000;
        let t2 = t2 >> 12;
        proof {
            lemma_entry_frame_bound(entry_at(self.phys(), t3, p3_field(page@)));
        }
        let e2 = Entry::from_bits(self.mem.read_entry(t2, page.p2_index()));
        if e2.is_present() && e2.is_huge() {
            // a 2 MiB mapping: the base must be aligned to 512 frames
            proof {
                lemma_zero_entry();
                assert(self.phys().huge_slot(t2, p2_field(page@)));
                lemma_entry_frame_bound(entry_at(self.phys(), t2, p2_field(page@)));
            }
            let base = match e2.pointed_frame() {
                Some(f) => f,
                None => Frame::containing_addr(0),
            };
            assert(base@ % 512 == 0);
            let idx = base.index() + (page.p1_index() as u64);
            return Some(Frame::new(idx));
        }
        if !e2.is_present() {
            return None;
        }
        proof {
            assert(self.phys().child_slot(t2, p2_field(page@)));
        }
        let t1 = e2.bits() & 0x000f_ffff_ffff_f000;
        let t1 = t1 >> 12;
        proof {
            lemma_entry_frame_bound(entry_at(self.phys(), t2, p2_field(page@)));
        }
        let e1 = Entry::from_bits(self.mem.read_entry(t1, page.p1_index()));
        proof {
            lemma_entry_frame_bound(entry_at(self.phys(), t1, p1_field(page@)));
        }
        e1.pointed_frame()
    }

    /// The physical address that `virt_addr` translates to: the page walk
    /// plus the offset within the page.
    pub fn translate(&self, virt_addr: u64) -> (r: Option<u64>)
        requires
            self.wf(),
            canonical_addr(virt_addr),
            p4_field(virt_addr / 4096) != 511,
        ensures
            r == translate_spec(self.phys(), self.root(), virt_addr),
    {
        let offset = virt_addr % PAGE_SIZE;
        let page = Page::containing_addr(virt_addr);
        match self.translate_page(page) {
            Some(frame) => {
                proof {
                    lemma_frame_bound_of_translate(self.phys(), self.root(), virt_addr / 4096);
                }
                Some(frame.index() * PAGE_SIZE + offset)
            },
            None => None,
        }
    }
}

/// The leaf entry that `map_to` writes points back at exactly the frame
/// that was mapped, so a later `unmap` of the page hands that same frame
/// back.
pub proof fn lemma_map_unmap_roundtrip(f: u64, flags: u64)
    requires
        f < MAX_ENTRY_FRAME,
        flags_wf(flags),
    ensures
        entry_frame(make_entry(f, (flags | 1) as u64)) == f,
        entry_present(make_entry(f, (flags | 1) as u64)),
{
    lemma_flags_or_wf_one(flags);
    lemma_entry_unpack(f, (flags | 1) as u64);
    lemma_or_one(flags);
}

/// A page that translates to a frame translates every address it holds:
/// for each offset within the page, the translated address is the frame's
/// base plus that offset.
pub proof fn lemma_mapped_translation(m: PhysMem, r: u64, pi: u64, f: u64, o: u64)
    requires
        translate_page_spec(m, r, pi) == Some(f),
        pi < 0x10000000000000,
        o < 4096,
    ensures
        translate_spec(m, r, (pi * 4096 + o) as u64) == Some((f * 4096 + o) as u64),
{
    let va: u64 = (pi * 4096 + o) as u64;
    assert(va as int == pi * 4096 + o);
    assert(va / 4096 == pi && va % 4096 == o) by {
        vstd::arithmetic::div_mod::lemma_fundamental_div_mod_converse(
            va as int,
            4096,
            pi as int,
            o as int,
        );
    }
    lemma_frame_bound_of_translate(m, r, pi);
}

/// Any frame produced by a page walk is below `2^41`, so turning it back
/// into an address cannot overflow.
pub proof fn lemma_frame_bound_of_translate(m: PhysMem, r: u64, pi: u64)
    ensures
        translate_page_spec(m, r, pi) matches Some(f) ==> f < 0x200_0000_0000,
{
    lemma_fields_bounded(pi);
    lemma_entry_frame_bound(leaf_entry(m, r, pi));
    match l3_table(m, r, pi) {
        Some(t3) => {
            lemma_entry_frame_bound(entry_at(m, t3, p3_field(pi)));
            match l2_table(m, r, pi) {
                Some(t2) => {
                    lemma_entry_frame_bound(entry_at(m, t2, p2_field(pi)));
                },
                None => {},
            }
        },
        None => {},
    }
}

/// Under the forest invariant, the tables on a resolved path sit at levels
/// 3, 2, 1 and are the unique children of the slots that point at them.
pub proof fn lemma_path_structure(m: PhysMem, r: u64, pi: u64)
    requires
        m.wf(),
        m.is_root(r),
        p4_field(pi) != 511,
    ensures
        l3_table(m, r, pi) matches Some(t3) ==> m.child_slot(r, p4_field(pi)) && t3
            == m.slot_target(r, p4_field(pi)) && m@.contains_key(t3) && m.lvl(t3) == 3,
        l2_table(m, r, pi) matches Some(t2) ==> l3_table(m, r, pi) matches Some(t3) && m.child_slot(
            t3,
            p3_field(pi),
        ) && t2 == m.slot_target(t3, p3_field(pi)) && m@.contains_key(t2) && m.lvl(t2) == 2,
        l1_table(m, r, pi) matches Some(t1) ==> l2_table(m, r, pi) matches Some(t2) && m.child_slot(
            t2,
            p2_field(pi),
        ) && t1 == m.slot_target(t2, p2_field(pi)) && m@.contains_key(t1) && m.lvl(t1) == 1,
{
    lemma_fields_bounded(pi);
    match l3_table(m, r, pi) {
        Some(t3) => {
            assert(m.child_slot(r, p4_field(pi)));
            match l2_table(m, r, pi) {
                Some(t2) => {
                    assert(m.child_slot(t3, p3_field(pi)));
                    match l1_table(m, r, pi) {
                        Some(t1) => {
                            assert(m.child_slot(t2, p2_field(pi)));
                        },
                        None => {},
                    }
                },
                None => {},
            }
        },
        None => {},
    }
}

/// Two resolved level-1 tables can only coincide when root and all three
/// upper index fields coincide: parents are unique.
pub proof fn lemma_same_l1(m: PhysMem, r: u64, pi: u64, r2: u64, q: u64)
    requires
        m.wf(),
        m.is_root(r),
        m.is_root(r2),
        p4_field(pi) != 511,
        p4_field(q) != 511,
        l1_table(m, r, pi) is Some,
        l1_table(m, r2, q) == l1_table(m, r, pi),
    ensures
        r2 == r,
        p4_field(q) == p4_field(pi),
        p3_field(q) == p3_field(pi),
        p2_field(q) == p2_field(pi),
{
    lemma_path_structure(m, r, pi);
    lemma_path_structure(m, r2, q);
    let t3 = l3_table(m, r, pi).unwrap();
    let t2 = l2_table(m, r, pi).unwrap();
    let a3 = l3_table(m, r2, q).unwrap();
    let a2 = l2_table(m, r2, q).unwrap();
    assert(m.child_slot(t2, p2_field(pi)) && m.child_slot(a2, p2_field(q)));
    assert(a2 == t2 && p2_field(q) == p2_field(pi));
    assert(m.child_slot(t3, p3_field(pi)) && m.child_slot(a3, p3_field(q)));
    assert(a3 == t3 && p3_field(q) == p3_field(pi));
    assert(m.child_slot(r, p4_field(pi)) && m.child_slot(r2, p4_field(q)));
}

/// Two canonical pages with the same four index fields are the same page.
pub proof fn lemma_fields_equal_pages(pi: u64, q: u64)
    requires
        canonical_index(pi as int),
        canonical_index(q as int),
        p4_field(pi) == p4_field(q),
        p3_field(pi) == p3_field(q),
        p2_field(pi) == p2_field(q),
        p1_field(pi) == p1_field(q),
    ensures
        pi == q,
{
    crate::bits::lemma_recompose_mod(pi);
    crate::bits::lemma_recompose_mod(q);
    crate::bits::lemma_canonical_mod_inject(pi, q);
}

/// Installing a fresh zeroed table changes no walk at all: absent frames
/// already read as zeroed memory.
pub proof fn lemma_insert_preserves_walks(m1: PhysMem, m2: PhysMem, f: u64)
    requires
        !m1@.contains_key(f),
        m2@ == m1@.insert(f, zero_table()),
    ensures
        forall|r: u64, pi: u64| #![all_triggers]
            l3_table(m2, r, pi) == l3_table(m1, r, pi) && l2_table(m2, r, pi) == l2_table(
                m1,
                r,
                pi,
            ) && l1_table(m2, r, pi) == l1_table(m1, r, pi) && leaf_entry(m2, r, pi) == leaf_entry(
                m1,
                r,
                pi,
            ) && translate_page_spec(m2, r, pi) == translate_page_spec(m1, r, pi)
                && no_huge_on_path(m2, r, pi) == no_huge_on_path(m1, r, pi),
{
    assert forall|t: u64, i: int| 0 <= i < 512 implies entry_at(m2, t, i) == entry_at(
        m1,
        t,
        i,
    ) by {
        if t == f {
            assert(entry_at(m1, t, i) == 0);
            assert(m2@[f] == zero_table());
        }
    }
    assert forall|r: u64, pi: u64| #![all_triggers]
        l3_table(m2, r, pi) == l3_table(m1, r, pi) && l2_table(m2, r, pi) == l2_table(m1, r, pi)
            && l1_table(m2, r, pi) == l1_table(m1, r, pi) && leaf_entry(m2, r, pi) == leaf_entry(
            m1,
            r,
            pi,
        ) && translate_page_spec(m2, r, pi) == translate_page_spec(m1, r, pi) by {
        lemma_fields_bounded(pi);
        assert(entry_at(m2, r, p4_field(pi)) == entry_at(m1, r, p4_field(pi)));
        match l3_table(m1, r, pi) {
            Some(t3) => {
                assert(entry_at(m2, t3, p3_field(pi)) == entry_at(m1, t3, p3_field(pi)));
                match l2_table(m1, r, pi) {
                    Some(t2) => {
                        assert(entry_at(m2, t2, p2_field(pi)) == entry_at(m1, t2, p2_field(pi)));
                        match l1_table(m1, r, pi) {
                            Some(t1) => {
                                assert(entry_at(m2, t1, p1_field(pi)) == entry_at(
                                    m1,
                                    t1,
                                    p1_field(pi),
                                ));
                            },
                            None => {},
                        }
                    },
                    None => {},
                }
            },
            None => {},
        }
    }
}

/// A write that no step of the walk reads leaves the walk unchanged.
pub proof fn lemma_update_preserves_walk(
    m1: PhysMem,
    m2: PhysMem,
    f: u64,
    i: int,
    v: u64,
    r: u64,
    pi: u64,
)
    requires
        m1@.contains_key(f),
        m1@[f].len() == 512,
        0 <= i < 512,
        m2@ == m1@.insert(f, m1@[f].update(i, v)),
        !walk_reads(m1, r, pi, f, i),
    ensures
        l3_table(m2, r, pi) == l3_table(m1, r, pi),
        l2_table(m2, r, pi) == l2_table(m1, r, pi),
        l1_table(m2, r, pi) == l1_table(m1, r, pi),
        leaf_entry(m2, r, pi) == leaf_entry(m1, r, pi),
        translate_page_spec(m2, r, pi) == translate_page_spec(m1, r, pi),
        no_huge_on_path(m2, r, pi) == no_huge_on_path(m1, r, pi),
{
    lemma_fields_bounded(pi);
    assert forall|t: u64, j: int| 0 <= j < 512 && !(t == f && j == i) implies entry_at(m2, t, j)
        == entry_at(m1, t, j) by {}
    assert(entry_at(m2, r, p4_field(pi)) == entry_at(m1, r, p4_field(pi)));
    match l3_table(m1, r, pi) {
        Some(t3) => {
            assert(entry_at(m2, t3, p3_field(pi)) == entry_at(m1, t3, p3_field(pi)));
            match l2_table(m1, r, pi) {
                Some(t2) => {
                    assert(entry_at(m2, t2, p2_field(pi)) == entry_at(m1, t2, p2_field(pi)));
                    match l1_table(m1, r, pi) {
                        Some(t1) => {
                            assert(entry_at(m2, t1, p1_field(pi)) == entry_at(m1, t1, p1_field(pi)));
                        },
                        None => {},
                    }
                },
                None => {},
            }
        },
        None => {},
    }
}

/// Turning a previously empty slot of a table at level 2 or above into a
/// child pointer at a zeroed table changes no translation: every walk that
/// passes through the new child finds only empty entries.
pub proof fn lemma_create_child_preserves_translate(
    m1: PhysMem,
    m2: PhysMem,
    parent: u64,
    i: int,
    v: u64,
    r2: u64,
    q: u64,
)
    requires
        m1.wf(),
        m1@.contains_key(parent),
        2 <= m1.lvl(parent),
        0 <= i < 512,
        !entry_present(m1@[parent][i]),
        m1@.contains_key(entry_frame(v)),
        m1@[entry_frame(v)] == zero_table(),
        entry_frame(v) != parent,
        entry_present(v),
        !entry_huge(v),
        m2@ == m1@.insert(parent, m1@[parent].update(i, v)),
        m1.is_root(r2),
        p4_field(q) != 511,
    ensures
        translate_page_spec(m2, r2, q) == translate_page_spec(m1, r2, q),
        no_huge_on_path(m2, r2, q) == no_huge_on_path(m1, r2, q),
        leaf_entry(m2, r2, q) == leaf_entry(m1, r2, q),
{
    lemma_fields_bounded(q);
    lemma_zero_entry();
    lemma_path_structure(m1, r2, q);
    let fresh = entry_frame(v);
    assert forall|t: u64, j: int| 0 <= j < 512 && !(t == parent && j == i) implies entry_at(
        m2,
        t,
        j,
    ) == entry_at(m1, t, j) by {}
    assert(entry_at(m2, fresh, 0) == 0);
    if r2 == parent && i == p4_field(q) {
        // the walk finds the new child and stops in the zeroed table
        assert(l3_table(m1, r2, q) is None);
        assert(translate_page_spec(m1, r2, q) is None);
        assert(l3_table(m2, r2, q) == Some(fresh));
        assert(entry_at(m2, fresh, p3_field(q)) == 0);
        assert(l2_table(m2, r2, q) is None);
        assert(leaf_entry(m2, r2, q) == 0);
        assert(translate_page_spec(m2, r2, q) is None);
        assert(no_huge_on_path(m1, r2, q));
        assert(no_huge_on_path(m2, r2, q));
    } else {
        assert(entry_at(m2, r2, p4_field(q)) == entry_at(m1, r2, p4_field(q)));
        assert(l3_table(m2, r2, q) == l3_table(m1, r2, q));
        match l3_table(m1, r2, q) {
            Some(t3) => {
                if t3 == parent && i == p3_field(q) {
                    assert(l2_table(m1, r2, q) is None);
                    assert(leaf_entry(m1, r2, q) == 0);
                    assert(translate_page_spec(m1, r2, q) is None);
                    assert(entry_at(m2, t3, p3_field(q)) == v);
                    assert(l2_table(m2, r2, q) == Some(fresh));
                    assert(entry_at(m2, fresh, p2_field(q)) == 0);
                    assert(l1_table(m2, r2, q) is None);
                    assert(leaf_entry(m2, r2, q) == 0);
                    assert(translate_page_spec(m2, r2, q) is None);
                    assert(no_huge_on_path(m1, r2, q));
                    assert(no_huge_on_path(m2, r2, q));
                } else {
                    assert(entry_at(m2, t3, p3_field(q)) == entry_at(m1, t3, p3_field(q)));
                    assert(l2_table(m2, r2, q) == l2_table(m1, r2, q));
                    match l2_table(m1, r2, q) {
                        Some(t2) => {
                            if t2 == parent && i == p2_field(q) {
                                assert(l1_table(m1, r2, q) is None);
                                assert(leaf_entry(m1, r2, q) == 0);
                                assert(translate_page_spec(m1, r2, q) is None);
                                assert(entry_at(m2, t2, p2_field(q)) == v);
                                assert(l1_table(m2, r2, q) == Some(fresh));
                                assert(entry_at(m2, fresh, p1_field(q)) == 0);
                                assert(leaf_entry(m2, r2, q) == 0);
                                assert(translate_page_spec(m2, r2, q) is None);
                                assert(no_huge_on_path(m1, r2, q));
                                assert(no_huge_on_path(m2, r2, q));
                            } else {
                                assert(entry_at(m2, t2, p2_field(q)) == entry_at(
                                    m1,
                                    t2,
                                    p2_field(q),
                                ));
                                assert(l1_table(m2, r2, q) == l1_table(m1, r2, q));
                                match l1_table(m1, r2, q) {
                                    Some(t1) => {
                                        // a level-1 table cannot be the written
                                        // table, whose level is 2 or more
                                        assert(m1.lvl(t1) == 1);
                                        assert(t1 != parent);
                                        assert(entry_at(m2, t1, p1_field(q)) == entry_at(
                                            m1,
                                            t1,
                                            p1_field(q),
                                        ));
                                        assert(leaf_entry(m2, r2, q) == leaf_entry(m1, r2, q));
                                    },
                                    None => {
                                        assert(leaf_entry(m2, r2, q) == leaf_entry(m1, r2, q));
                                    },
                                }
                            }
                        },
                        None => {},
                    }
                }
            },
            None => {},
        }
    }
}

proof fn lemma_child_entry_bits()
    ensures
        flags_wf(3),
        3u64 & 1 == 1,
        !(3u64 & 0x80 == 0x80),
        1u64 | 2 == 3,
{
    assert(3u64 & !0x8000_0000_0000_01ff == 0 && 3u64 & 1 == 1 && !(3u64 & 0x80 == 0x80) && (1u64
        | 2) == 3) by (bit_vector);
}

proof fn lemma_or_one(a: u64)
    ensures
        (a | 1) & 1 == 1,
{
    assert((a | 1) & 1 == 1) by (bit_vector);
}

/// No entry on the page's existing path carries the huge-page bit, so the
/// path can be descended or extended with ordinary tables.
pub open spec fn no_huge_on_path(m: PhysMem, r: u64, pi: u64) -> bool {
    &&& (entry_present(entry_at(m, r, p4_field(pi))) ==> !entry_huge(
        entry_at(m, r, p4_field(pi)),
    ))
    &&& (l3_table(m, r, pi) matches Some(t3) ==> (entry_present(entry_at(m, t3, p3_field(pi)))
        ==> !entry_huge(entry_at(m, t3, p3_field(pi)))))
    &&& (l2_table(m, r, pi) matches Some(t2) ==> (entry_present(entry_at(m, t2, p2_field(pi)))
        ==> !entry_huge(entry_at(m, t2, p2_field(pi)))))
}

/// The page's level-1 slot is completely unused, where it exists at all.
pub open spec fn leaf_unused(m: PhysMem, r: u64, pi: u64) -> bool {
    leaf_entry(m, r, pi) == 0
}

/// How many tables of the page's path are still missing and would have to
/// be allocated by `map_to`.
pub open spec fn missing_tables(m: PhysMem, r: u64, pi: u64) -> nat {
    if l3_table(m, r, pi) is None {
        3
    } else if l2_table(m, r, pi) is None {
        2
    } else if l1_table(m, r, pi) is None {
        1
    } else {
        0
    }
}

impl Mapper {
    /// Descend into the child table behind slot `index` of the table in
    /// frame `t`, creating and zeroing it from a fresh allocator frame when
    /// the slot is empty, as the hardware walk itself would.
    pub fn next_table_create<A: FrameAllocator>(
        &mut self,
        t: u64,
        index: usize,
        allocator: &mut A,
    ) -> (r: u64)
        requires
            old(self).wf(),
            old(self).phys()@.contains_key(t),
            2 <= old(self).phys().lvl(t),
            !(old(self).phys().lvl(t) == 4 && index == 511),
            index < 512,
            entry_present(old(self).phys()@[t][index as int]) ==> !entry_huge(
                old(self).phys()@[t][index as int],
            ),
            !entry_present(old(self).phys()@[t][index as int]) ==> old(allocator).can_supply(1)
                && old(allocator).avail().disjoint(old(self).phys()@.dom()),
        ensures
            final(self).wf(),
            final(self).root() == old(self).root(),
            final(self).phys().child_slot(t, index as int),
            r == final(self).phys().slot_target(t, index as int),
            final(self).phys()@.contains_key(r),
            final(self).phys().lvl(r) == old(self).phys().lvl(t) - 1,
            forall|g: u64| #[trigger]
                old(self).phys()@.contains_key(g) ==> final(self).phys()@.contains_key(g) && final(self).phys().lvl(g) == old(self).phys().lvl(g),
            forall|g: u64, j: int|
                #![trigger final(self).phys()@[g][j]]
                old(self).phys()@.contains_key(g) && 0 <= j < 512 && !(g == t && j == index)
                    ==> final(self).phys()@[g][j] == old(self).phys()@[g][j],
            forall|g: u64| #[trigger]
                final(self).phys()@.contains_key(g) ==> old(self).phys()@.contains_key(g) || g
                    == r,
            entry_present(old(self).phys()@[t][index as int]) ==> final(self).phys() == old(self).phys() && *final(allocator) == *old(allocator) && r == entry_frame(
                old(self).phys()@[t][index as int],
            ),
            !entry_present(old(self).phys()@[t][index as int]) ==> !old(self).phys()@.contains_key(r) && old(allocator).avail().contains(r) && final(self).phys()@[r] == zero_table()
                && final(allocator).can_release(r) && !final(allocator).avail().contains(r),
            forall|r2: u64, q: u64|
                #![trigger translate_page_spec(final(self).phys(), r2, q)]
                old(self).phys().is_root(r2) && p4_field(q) != 511 ==> translate_page_spec(
                    final(self).phys(),
                    r2,
                    q,
                ) == translate_page_spec(old(self).phys(), r2, q),
            forall|r2: u64, q: u64|
                #![trigger l3_table(final(self).phys(), r2, q)]
                #![trigger l1_table(final(self).phys(), r2, q)]
                #![trigger leaf_entry(final(self).phys(), r2, q)]
                p4_field(q) != 511 && !walk_reads(old(self).phys(), r2, q, t, index as int) ==> {
                    &&& l3_table(final(self).phys(), r2, q) == l3_table(old(self).phys(), r2, q)
                    &&& l2_table(final(self).phys(), r2, q) == l2_table(old(self).phys(), r2, q)
                    &&& l1_table(final(self).phys(), r2, q) == l1_table(old(self).phys(), r2, q)
                    &&& leaf_entry(final(self).phys(), r2, q) == leaf_entry(
                        old(self).phys(),
                        r2,
                        q,
                    )
                    &&& no_huge_on_path(final(self).phys(), r2, q) == no_huge_on_path(
                        old(self).phys(),
                        r2,
                        q,
                    )
                },
            final(allocator).avail() <= old(allocator).avail(),
            !entry_present(old(self).phys()@[t][index as int]) ==> (forall|n: nat|
                old(allocator).can_supply(n + 1) ==> #[trigger] final(allocator).can_supply(n)),
            forall|g: u64|
                old(allocator).can_release(g) ==> #[trigger] final(allocator).can_release(g),
            old(allocator).avail().disjoint(old(self).phys()@.dom()) ==> final(allocator).avail().disjoint(final(self).phys()@.dom()),
    {
        let e = Entry::from_bits(self.mem.read_entry(t, index));
        if e.is_present() {
            let child = match e.pointed_frame() {
                Some(f) => f,
                None => Frame::containing_addr(0),
            };
            proof {
                assert(self.phys().child_slot(t, index as int));
            }
            child.index()
        } else {
            let frame = allocator.allocate().unwrap();
            let fresh = frame.index();
            let ghost m0 = self.phys();
            let ghost child_level = self.phys().lvl(t) - 1;
            self.mem.add_table(fresh, Ghost(child_level));
            let ghost ma = self.phys();
            proof {
                lemma_child_entry_bits();
                lemma_entry_unpack(fresh, 3);
            }
            let child_entry = make_entry_exec(
                frame,
                EntryFlags::present().union(EntryFlags::writable()),
            );
            proof {
                assert(fresh != t);
                assert(ma@.contains_key(t) && ma@.contains_key(fresh));
                assert(ma.lvl(t) == m0.lvl(t));
                assert(ma.lvl(fresh) == child_level);
                assert(child_entry == make_entry(fresh, 3));
                assert(entry_frame(child_entry) == fresh);
                assert(entry_present(child_entry) && !entry_huge(child_entry));
                assert(ma.write_ok(t, index as int, child_entry));
            }
            self.mem.write_entry(t, index, child_entry);
            proof {
                let mb = self.phys();
                lemma_insert_preserves_walks(m0, ma, fresh);
                assert forall|r2: u64, q: u64|
                    #![trigger translate_page_spec(mb, r2, q)]
                    m0.is_root(r2) && p4_field(q) != 511 implies translate_page_spec(mb, r2, q)
                    == translate_page_spec(m0, r2, q) && leaf_entry(mb, r2, q) == leaf_entry(
                    m0,
                    r2,
                    q,
                ) && no_huge_on_path(mb, r2, q) == no_huge_on_path(m0, r2, q) by {
                    assert(r2 != fresh);
                    assert(ma.lvl(r2) == m0.lvl(r2));
                    assert(ma.is_root(r2));
                    lemma_create_child_preserves_translate(
                        ma,
                        mb,
                        t,
                        index as int,
                        make_entry(fresh, 3),
                        r2,
                        q,
                    );
                    assert(translate_page_spec(ma, r2, q) == translate_page_spec(m0, r2, q));
                }
                assert(mb.child_slot(t, index as int));
                assert forall|r2: u64, q: u64|
                    #![trigger l3_table(mb, r2, q)]
                    #![trigger l1_table(mb, r2, q)]
                    #![trigger leaf_entry(mb, r2, q)]
                    p4_field(q) != 511 && !walk_reads(m0, r2, q, t, index as int) implies {
                    &&& l3_table(mb, r2, q) == l3_table(m0, r2, q)
                    &&& l2_table(mb, r2, q) == l2_table(m0, r2, q)
                    &&& l1_table(mb, r2, q) == l1_table(m0, r2, q)
                    &&& leaf_entry(mb, r2, q) == leaf_entry(m0, r2, q)
                    &&& no_huge_on_path(mb, r2, q) == no_huge_on_path(m0, r2, q)
                } by {
                    lemma_fields_bounded(q);
                    assert(l3_table(ma, r2, q) == l3_table(m0, r2, q));
                    assert(l2_table(ma, r2, q) == l2_table(m0, r2, q));
                    assert(l1_table(ma, r2, q) == l1_table(m0, r2, q));
                    assert(leaf_entry(ma, r2, q) == leaf_entry(m0, r2, q));
                    assert(no_huge_on_path(ma, r2, q) == no_huge_on_path(m0, r2, q));
                    assert(!walk_reads(ma, r2, q, t, index as int));
                    lemma_update_preserves_walk(
                        ma,
                        mb,
                        t,
                        index as int,
                        child_entry,
                        r2,
                        q,
                    );
                }
            }
            fresh
        }
    }

    /// Map `page` to `frame` with the given flags (plus the present bit),
    /// creating level 3, 2 and 1 tables on the way as needed. The target
    /// slot must be unused and the path free of huge pages; the allocator
    /// must be able to supply the missing tables, from frames that do not
    /// hold tables already.
    pub fn map_to<A: FrameAllocator>(
        &mut self,
        page: Page,
        frame: Frame,
        flags: EntryFlags,
        allocator: &mut A,
    )
        requires
            old(self).wf(),
            p4_field(page@) != 511,
            frame@ < MAX_ENTRY_FRAME,
            flags_wf(flags@),
            no_huge_on_path(old(self).phys(), old(self).root(), page@),
            leaf_unused(old(self).phys(), old(self).root(), page@),
            old(allocator).can_supply(missing_tables(old(self).phys(), old(self).root(), page@)),
            missing_tables(old(self).phys(), old(self).root(), page@) > 0 ==> old(allocator).avail().disjoint(old(self).phys()@.dom()),
        ensures
            final(self).wf(),
            final(self).root() == old(self).root(),
            leaf_entry(final(self).phys(), final(self).root(), page@) == make_entry(
                frame@,
                flags@ | 1,
            ),
            translate_page_spec(final(self).phys(), final(self).root(), page@) == Some(frame@),
            forall|r2: u64, q: u64|
                #![trigger translate_page_spec(final(self).phys(), r2, q)]
                old(self).phys().is_root(r2) && p4_field(q) != 511 && canonical_index(q as int)
                    && !(r2 == old(self).root() && q == page@) ==> translate_page_spec(
                    final(self).phys(),
                    r2,
                    q,
                ) == translate_page_spec(old(self).phys(), r2, q) && leaf_entry(
                    final(self).phys(),
                    r2,
                    q,
                ) == leaf_entry(old(self).phys(), r2, q) && no_huge_on_path(
                    final(self).phys(),
                    r2,
                    q,
                ) == no_huge_on_path(old(self).phys(), r2, q),
            forall|r2: u64, q: u64|
                #![trigger l3_table(final(self).phys(), r2, q)]
                #![trigger l1_table(final(self).phys(), r2, q)]
                #![trigger leaf_entry(final(self).phys(), r2, q)]
                old(self).phys().is_root(r2) && r2 != old(self).root() && p4_field(q) != 511
                    ==> {
                    &&& l3_table(final(self).phys(), r2, q) == l3_table(old(self).phys(), r2, q)
                    &&& l2_table(final(self).phys(), r2, q) == l2_table(old(self).phys(), r2, q)
                    &&& l1_table(final(self).phys(), r2, q) == l1_table(old(self).phys(), r2, q)
                    &&& leaf_entry(final(self).phys(), r2, q) == leaf_entry(
                        old(self).phys(),
                        r2,
                        q,
                    )
                    &&& no_huge_on_path(final(self).phys(), r2, q) == no_huge_on_path(
                        old(self).phys(),
                        r2,
                        q,
                    )
                },
            forall|g: u64| #[trigger]
                old(self).phys()@.contains_key(g) ==> final(self).phys()@.contains_key(g) && final(self).phys().lvl(g) == old(self).phys().lvl(g),
            forall|g: u64| #[trigger]
                final(self).phys()@.contains_key(g) ==> old(self).phys()@.contains_key(g) || old(allocator).avail().contains(g),
            forall|g: u64| final(self).phys().is_root(g) == old(self).phys().is_root(g),
            final(allocator).avail() <= old(allocator).avail(),
            forall|n: nat|
                old(allocator).can_supply(n + 3) ==> #[trigger] final(allocator).can_supply(n),
            forall|g: u64|
                old(allocator).can_release(g) ==> #[trigger] final(allocator).can_release(g),
            old(allocator).avail().disjoint(old(self).phys()@.dom()) ==> final(allocator).avail().disjoint(final(self).phys()@.dom()),
            missing_tables(old(self).phys(), old(self).root(), page@) == 0 ==> *final(allocator)
                == *old(allocator),
            missing_tables(old(self).phys(), old(self).root(), page@) > 0 ==> exists|g: u64|
                #[trigger] final(allocator).can_release(g) && !final(allocator).avail().contains(
                    g,
                ),
    {
        proof {
            use_type_invariant(&page);
            lemma_page_canonical(page);
            lemma_fields_bounded(page@);
            lemma_zero_entry();
        }
        let ghost m0 = self.phys();
        let ghost r = self.root();
        let ghost pi = page@;
        let ghost a0 = *allocator;
        let ghost ms = missing_tables(m0, r, pi);
        let root_frame = self.p4.index();
        proof {
            if ms < 3 {
                lemma_path_structure(m0, r, pi);
            }
            if ms == 3 {
                a0.lemma_can_supply_weaken(3, 1);
            }
        }
        let t3 = self.next_table_create(root_frame, page.p4_index(), allocator);
        let ghost m1 = self.phys();
        let ghost a1 = *allocator;
        proof {
            assert(l3_table(m1, r, pi) == Some(t3));
            lemma_path_structure(m1, r, pi);
            if ms >= 2 {
                assert(l2_table(m0, r, pi) is None);
                if ms == 3 {
                    assert(m1@[t3] == zero_table());
                    assert(!entry_present(entry_at(m1, t3, p3_field(pi))));
                    assert(a1.can_supply(2));
                    a1.lemma_can_supply_weaken(2, 1);
                } else {
                    assert(l3_table(m0, r, pi) == Some(t3));
                    assert(entry_at(m1, t3, p3_field(pi)) == entry_at(m0, t3, p3_field(pi)));
                    assert(!entry_present(entry_at(m1, t3, p3_field(pi))));
                    a1.lemma_can_supply_weaken(2, 1);
                }
            } else {
                assert(l3_table(m0, r, pi) == Some(t3));
                assert(entry_at(m1, t3, p3_field(pi)) == entry_at(m0, t3, p3_field(pi)));
            }
        }
        let t2 = self.next_table_create(t3, page.p3_index(), allocator);
        let ghost m2 = self.phys();
        let ghost a2 = *allocator;
        proof {
            assert(entry_at(m2, r, p4_field(pi)) == entry_at(m1, r, p4_field(pi)));
            assert(l3_table(m2, r, pi) == Some(t3));
            assert(l2_table(m2, r, pi) == Some(t2));
            lemma_path_structure(m2, r, pi);
            if ms >= 1 {
                assert(l1_table(m0, r, pi) is None);
                if ms == 1 {
                    assert(l2_table(m0, r, pi) == Some(t2));
                    assert(entry_at(m2, t2, p2_field(pi)) == entry_at(m0, t2, p2_field(pi)));
                    assert(!entry_present(entry_at(m2, t2, p2_field(pi))));
                    assert(a2.can_supply(1));
                } else {
                    assert(m2@[t2] == zero_table());
                    assert(!entry_present(entry_at(m2, t2, p2_field(pi))));
                    assert(a2.can_supply(1));
                }
            } else {
                assert(l2_table(m0, r, pi) == Some(t2));
                assert(entry_at(m2, t2, p2_field(pi)) == entry_at(m0, t2, p2_field(pi)));
            }
        }
        let t1 = self.next_table_create(t2, page.p2_index(), allocator);
        let ghost m3 = self.phys();
        let ghost a3 = *allocator;
        proof {
            assert(entry_at(m3, r, p4_field(pi)) == entry_at(m2, r, p4_field(pi)));
            assert(entry_at(m3, t3, p3_field(pi)) == entry_at(m2, t3, p3_field(pi)));
            assert(l3_table(m3, r, pi) == Some(t3));
            assert(l2_table(m3, r, pi) == Some(t2));
            assert(l1_table(m3, r, pi) == Some(t1));
            lemma_path_structure(m3, r, pi);
            // the target slot is still unused
            if ms == 0 {
                assert(l1_table(m0, r, pi) == Some(t1));
                assert(entry_at(m3, t1, p1_field(pi)) == entry_at(m0, t1, p1_field(pi)));
            } else {
                assert(m3@[t1] == zero_table());
            }
            assert(entry_at(m3, t1, p1_field(pi)) == 0);
            lemma_flags_or_wf_one(flags@);
            lemma_entry_unpack(frame@, flags@ | 1);
            lemma_or_one(flags@);
        }
        let leaf = make_entry_exec(frame, flags.union(EntryFlags::present()));
        self.mem.write_entry(t1, page.p1_index(), leaf);
        proof {
            let m4 = self.phys();
            assert(entry_at(m4, r, p4_field(pi)) == entry_at(m3, r, p4_field(pi)));
            assert(entry_at(m4, t3, p3_field(pi)) == entry_at(m3, t3, p3_field(pi)));
            assert(entry_at(m4, t2, p2_field(pi)) == entry_at(m3, t2, p2_field(pi)));
            assert(l1_table(m4, r, pi) == Some(t1));
            assert(entry_at(m4, t1, p1_field(pi)) == make_entry(frame@, flags@ | 1));
            assert(entry_present(leaf_entry(m4, r, pi)));
            assert(translate_page_spec(m4, r, pi) == Some(frame@));
            // tables persist with their levels, through all four steps
            assert forall|g: u64| #[trigger] m0@.contains_key(g) implies m4@.contains_key(g)
                && m4.lvl(g) == m0.lvl(g) by {
                assert(m1@.contains_key(g) && m1.lvl(g) == m0.lvl(g));
                assert(m2@.contains_key(g) && m2.lvl(g) == m1.lvl(g));
                assert(m3@.contains_key(g) && m3.lvl(g) == m2.lvl(g));
            }
            // new tables all came from the allocator, at levels 3 and below
            assert forall|g: u64| #[trigger] m4@.contains_key(g) implies (m0@.contains_key(g)
                || a0.avail().contains(g)) && m4.is_root(g) == m0.is_root(g) by {
                assert(m3@.contains_key(g));
                if !m0@.contains_key(g) {
                    if m1@.contains_key(g) {
                        assert(g == t3 && m1.lvl(g) == 3);
                        assert(a0.avail().contains(g));
                    } else if m2@.contains_key(g) {
                        assert(g == t2 && m2.lvl(g) == 2);
                        assert(a1.avail().contains(g));
                        assert(a1.avail() <= a0.avail());
                    } else {
                        assert(g == t1 && m3.lvl(g) == 1);
                        assert(a2.avail().contains(g));
                        assert(a2.avail() <= a1.avail());
                        assert(a1.avail() <= a0.avail());
                    }
                    assert(m4.lvl(g) <= 3);
                } else {
                    assert(m4.lvl(g) == m0.lvl(g));
                }
            }
            // supply guarantees shrink by at most the three creations
            assert forall|n: nat| a0.can_supply(n + 3) implies allocator.can_supply(n) by {
                assert(a1.can_supply(n + 2)) by {
                    if l3_table(m0, r, pi) is None {
                        assert(a1.can_supply((n + 2) as nat));
                    } else {
                        assert(a1 == a0);
                        a1.lemma_can_supply_weaken(n + 3, n + 2);
                    }
                }
                assert(a2.can_supply(n + 1)) by {
                    if l2_table(m1, r, pi) is None {
                    } else {
                        assert(a2 == a1);
                        a2.lemma_can_supply_weaken(n + 2, n + 1);
                    }
                }
                assert(a3.can_supply(n)) by {
                    if l1_table(m2, r, pi) is None {
                    } else {
                        assert(a3 == a2);
                        a3.lemma_can_supply_weaken(n + 1, n);
                    }
                }
            }
            // walks from every other root are untouched entirely
            assert forall|r2: u64, q: u64|
                #![trigger l3_table(m4, r2, q)]
                #![trigger l1_table(m4, r2, q)]
                #![trigger leaf_entry(m4, r2, q)]
                m0.is_root(r2) && r2 != r && p4_field(q) != 511 implies {
                &&& l3_table(m4, r2, q) == l3_table(m0, r2, q)
                &&& l2_table(m4, r2, q) == l2_table(m0, r2, q)
                &&& l1_table(m4, r2, q) == l1_table(m0, r2, q)
                &&& leaf_entry(m4, r2, q) == leaf_entry(m0, r2, q)
                &&& no_huge_on_path(m4, r2, q) == no_huge_on_path(m0, r2, q)
            } by {
                lemma_fields_bounded(q);
                assert(m1.is_root(r2) && m2.is_root(r2) && m3.is_root(r2));
                lemma_path_structure(m0, r2, q);
                assert(!walk_reads(m0, r2, q, root_frame@, p4_field(pi)));
                lemma_path_structure(m1, r2, q);
                lemma_path_structure(m1, r, pi);
                assert(!walk_reads(m1, r2, q, t3, p3_field(pi)));
                lemma_path_structure(m2, r2, q);
                lemma_path_structure(m2, r, pi);
                assert(!walk_reads(m2, r2, q, t2, p2_field(pi)));
                assert(l3_table(m3, r2, q) == l3_table(m0, r2, q));
                assert(l2_table(m3, r2, q) == l2_table(m0, r2, q));
                assert(l1_table(m3, r2, q) == l1_table(m0, r2, q));
                assert(leaf_entry(m3, r2, q) == leaf_entry(m0, r2, q));
                assert(no_huge_on_path(m3, r2, q) == no_huge_on_path(m0, r2, q));
                lemma_path_structure(m3, r2, q);
                if l1_table(m3, r2, q) == Some(t1) {
                    lemma_same_l1(m3, r, pi, r2, q);
                    assert(false);
                }
                assert(!walk_reads(m3, r2, q, t1, p1_field(pi)));
                lemma_update_preserves_walk(
                    m3,
                    m4,
                    t1,
                    p1_field(pi),
                    make_entry(frame@, flags@ | 1),
                    r2,
                    q,
                );
            }
            // every other translation is untouched
            assert forall|r2: u64, q: u64|
                #![trigger translate_page_spec(m4, r2, q)]
                m0.is_root(r2) && p4_field(q) != 511 && canonical_index(q as int) && !(r2 == r && q
                    == pi) implies translate_page_spec(m4, r2, q) == translate_page_spec(
                m0,
                r2,
                q,
            ) && leaf_entry(m4, r2, q) == leaf_entry(m0, r2, q) && no_huge_on_path(m4, r2, q)
                == no_huge_on_path(m0, r2, q) by {
                assert(m1.is_root(r2));
                assert(m2.is_root(r2));
                assert(m3.is_root(r2));
                lemma_fields_bounded(q);
                if l1_table(m3, r2, q) == Some(t1) && p1_field(q) == p1_field(pi) {
                    lemma_same_l1(m3, r, pi, r2, q);
                    lemma_fields_equal_pages(pi, q);
                    assert(false);
                } else {
                    lemma_path_structure(m3, r2, q);
                    assert(!walk_reads(m3, r2, q, t1, p1_field(pi)));
                    lemma_update_preserves_walk(
                        m3,
                        m4,
                        t1,
                        p1_field(pi),
                        make_entry(frame@, flags@ | 1),
                        r2,
                        q,
                    );
                    assert(translate_page_spec(m3, r2, q) == translate_page_spec(m2, r2, q));
                    assert(translate_page_spec(m2, r2, q) == translate_page_spec(m1, r2, q));
                    assert(translate_page_spec(m1, r2, q) == translate_page_spec(m0, r2, q));
                    assert(leaf_entry(m3, r2, q) == leaf_entry(m0, r2, q));
                    assert(no_huge_on_path(m3, r2, q) == no_huge_on_path(m0, r2, q));
                }
            }
        }
    }
}

impl Mapper {
    /// Remove the mapping of `page`, which must be mapped through an
    /// ordinary (non-huge) path, and give the frame it pointed at back to
    /// the allocator. The hardware TLB entry for the page is flushed at this
    /// point; the memory model itself has no translation cache.
    pub fn unmap<A: FrameAllocator>(&mut self, page: Page, allocator: &mut A) -> (r: Frame)
        requires
            old(self).wf(),
            p4_field(page@) != 511,
            l1_table(old(self).phys(), old(self).root(), page@) is Some,
            entry_present(leaf_entry(old(self).phys(), old(self).root(), page@)),
            old(allocator).can_release(
                entry_frame(leaf_entry(old(self).phys(), old(self).root(), page@)),
            ),
        ensures
            final(self).wf(),
            final(self).root() == old(self).root(),
            r@ == entry_frame(leaf_entry(old(self).phys(), old(self).root(), page@)),
            translate_page_spec(old(self).phys(), old(self).root(), page@) == Some(r@),
            translate_page_spec(final(self).phys(), final(self).root(), page@) is None,
            leaf_entry(final(self).phys(), final(self).root(), page@) == 0,
            forall|r2: u64, q: u64|
                #![trigger translate_page_spec(final(self).phys(), r2, q)]
                old(self).phys().is_root(r2) && p4_field(q) != 511 && canonical_index(q as int)
                    && !(r2 == old(self).root() && q == page@) ==> translate_page_spec(
                    final(self).phys(),
                    r2,
                    q,
                ) == translate_page_spec(old(self).phys(), r2, q),
            forall|r2: u64, q: u64|
                #![trigger l3_table(final(self).phys(), r2, q)]
                #![trigger l1_table(final(self).phys(), r2, q)]
                #![trigger leaf_entry(final(self).phys(), r2, q)]
                old(self).phys().is_root(r2) && r2 != old(self).root() && p4_field(q) != 511
                    ==> {
                    &&& l3_table(final(self).phys(), r2, q) == l3_table(old(self).phys(), r2, q)
                    &&& l2_table(final(self).phys(), r2, q) == l2_table(old(self).phys(), r2, q)
                    &&& l1_table(final(self).phys(), r2, q) == l1_table(old(self).phys(), r2, q)
                    &&& leaf_entry(final(self).phys(), r2, q) == leaf_entry(
                        old(self).phys(),
                        r2,
                        q,
                    )
                    &&& no_huge_on_path(final(self).phys(), r2, q) == no_huge_on_path(
                        old(self).phys(),
                        r2,
                        q,
                    )
                },
            forall|g: u64| #[trigger]
                final(self).phys()@.contains_key(g) == old(self).phys()@.contains_key(g),
            forall|g: u64| #[trigger]
                old(self).phys()@.contains_key(g) && old(self).phys().lvl(g) != 1 ==> final(self).phys()@[g] == old(self).phys()@[g],
            final(self).phys().levels_map() == old(self).phys().levels_map(),
            final(allocator).avail() <= old(allocator).avail().insert(r@),
            final(allocator).avail() == old(allocator).released_avail(r@),
            final(allocator).held_seq() == old(allocator).released_held(r@),
            forall|n: nat|
                old(allocator).can_supply(n) ==> #[trigger] final(allocator).can_supply(n),
            forall|n: nat|
                old(allocator).released_supply(r@, n) ==> #[trigger] final(allocator).can_supply(
                    n,
                ),
    {
        proof {
            use_type_invariant(&page);
            lemma_page_canonical(page);
            lemma_fields_bounded(page@);
            lemma_zero_entry();
            lemma_path_structure(self.phys(), self.root(), page@);
        }
        let ghost m0 = self.phys();
        let ghost r0 = self.root();
        let ghost pi = page@;
        let e4 = Entry::from_bits(self.mem.read_entry(self.p4.index(), page.p4_index()));
        let t3 = e4.bits() & 0x000f_ffff_ffff_f000;
        let t3 = t3 >> 12;
        proof {
            lemma_entry_frame_bound(entry_at(m0, r0, p4_field(pi)));
            assert(l3_table(m0, r0, pi) == Some(t3));
        }
        let e3 = Entry::from_bits(self.mem.read_entry(t3, page.p3_index()));
        let t2 = e3.bits() & 0x000f_ffff_ffff_f000;
        let t2 = t2 >> 12;
        proof {
            lemma_entry_frame_bound(entry_at(m0, t3, p3_field(pi)));
            assert(l2_table(m0, r0, pi) == Some(t2));
        }
        let e2 = Entry::from_bits(self.mem.read_entry(t2, page.p2_index()));
        let t1 = e2.bits() & 0x000f_ffff_ffff_f000;
        let t1 = t1 >> 12;
        proof {
            lemma_entry_frame_bound(entry_at(m0, t2, p2_field(pi)));
            assert(l1_table(m0, r0, pi) == Some(t1));
        }
        let leaf = Entry::from_bits(self.mem.read_entry(t1, page.p1_index()));
        let frame = match leaf.pointed_frame() {
            Some(f) => f,
            None => Frame::containing_addr(0),
        };
        proof {
            assert(leaf@ == leaf_entry(m0, r0, pi));
            assert(m0.write_ok(t1, p1_field(pi), 0));
        }
        self.mem.write_entry(t1, page.p1_index(), 0);
        proof {
            let m1 = self.phys();
            assert(entry_at(m1, r0, p4_field(pi)) == entry_at(m0, r0, p4_field(pi)));
            assert(entry_at(m1, t3, p3_field(pi)) == entry_at(m0, t3, p3_field(pi)));
            assert(entry_at(m1, t2, p2_field(pi)) == entry_at(m0, t2, p2_field(pi)));
            assert(l1_table(m1, r0, pi) == Some(t1));
            assert(leaf_entry(m1, r0, pi) == 0);
            assert(translate_page_spec(m1, r0, pi) is None);
            assert forall|g: u64| #[trigger] m1@.contains_key(g) == m0@.contains_key(g) by {}
            assert forall|r2: u64, q: u64|
                #![trigger l3_table(m1, r2, q)]
                #![trigger l1_table(m1, r2, q)]
                #![trigger leaf_entry(m1, r2, q)]
                m0.is_root(r2) && r2 != r0 && p4_field(q) != 511 implies {
                &&& l3_table(m1, r2, q) == l3_table(m0, r2, q)
                &&& l2_table(m1, r2, q) == l2_table(m0, r2, q)
                &&& l1_table(m1, r2, q) == l1_table(m0, r2, q)
                &&& leaf_entry(m1, r2, q) == leaf_entry(m0, r2, q)
                &&& no_huge_on_path(m1, r2, q) == no_huge_on_path(m0, r2, q)
            } by {
                lemma_fields_bounded(q);
                lemma_path_structure(m0, r2, q);
                if l1_table(m0, r2, q) == Some(t1) {
                    lemma_same_l1(m0, r0, pi, r2, q);
                    assert(false);
                }
                assert(!walk_reads(m0, r2, q, t1, p1_field(pi)));
                lemma_update_preserves_walk(m0, m1, t1, p1_field(pi), 0, r2, q);
            }
            assert forall|r2: u64, q: u64|
                #![trigger translate_page_spec(m1, r2, q)]
                m0.is_root(r2) && p4_field(q) != 511 && canonical_index(q as int) && !(r2 == r0 && q
                    == pi) implies translate_page_spec(m1, r2, q) == translate_page_spec(
                m0,
                r2,
                q,
            ) by {
                lemma_fields_bounded(q);
                if l1_table(m0, r2, q) == Some(t1) && p1_field(q) == p1_field(pi) {
                    lemma_same_l1(m0, r0, pi, r2, q);
                    lemma_fields_equal_pages(pi, q);
                    assert(false);
                } else {
                    lemma_path_structure(m0, r2, q);
                    assert(!walk_reads(m0, r2, q, t1, p1_field(pi)));
                    lemma_update_preserves_walk(m0, m1, t1, p1_field(pi), 0, r2, q);
                }
            }
        }
        allocator.release(frame);
        frame
    }

    /// Map `page` to a freshly allocated frame.
    pub fn map<A: FrameAllocator>(&mut self, page: Page, flags: EntryFlags, allocator: &mut A)
        requires
            old(self).wf(),
            p4_field(page@) != 511,
            flags_wf(flags@),
            no_huge_on_path(old(self).phys(), old(self).root(), page@),
            leaf_unused(old(self).phys(), old(self).root(), page@),
            old(allocator).can_supply(
                missing_tables(old(self).phys(), old(self).root(), page@) + 1,
            ),
            missing_tables(old(self).phys(), old(self).root(), page@) > 0 ==> old(allocator).avail().disjoint(old(self).phys()@.dom()),
        ensures
            final(self).wf(),
            final(self).root() == old(self).root(),
            match translate_page_spec(final(self).phys(), final(self).root(), page@) {
                Some(f) => old(allocator).avail().contains(f),
                None => false,
            },
            forall|r2: u64, q: u64|
                #![trigger translate_page_spec(final(self).phys(), r2, q)]
                old(self).phys().is_root(r2) && p4_field(q) != 511 && canonical_index(q as int)
                    && !(r2 == old(self).root() && q == page@) ==> translate_page_spec(
                    final(self).phys(),
                    r2,
                    q,
                ) == translate_page_spec(old(self).phys(), r2, q) && leaf_entry(
                    final(self).phys(),
                    r2,
                    q,
                ) == leaf_entry(old(self).phys(), r2, q) && no_huge_on_path(
                    final(self).phys(),
                    r2,
                    q,
                ) == no_huge_on_path(old(self).phys(), r2, q),
            forall|g: u64| #[trigger]
                old(self).phys()@.contains_key(g) ==> final(self).phys()@.contains_key(g) && final(self).phys().lvl(g) == old(self).phys().lvl(g),
            forall|g: u64| #[trigger]
                final(self).phys()@.contains_key(g) ==> old(self).phys()@.contains_key(g) || old(allocator).avail().contains(g),
            forall|g: u64| final(self).phys().is_root(g) == old(self).phys().is_root(g),
            final(allocator).avail() <= old(allocator).avail(),
            forall|n: nat|
                old(allocator).can_supply(n + 4) ==> #[trigger] final(allocator).can_supply(n),
            old(allocator).avail().disjoint(old(self).phys()@.dom()) ==> final(allocator).avail().disjoint(final(self).phys()@.dom()),
    {
        proof {
            let ghost ms = missing_tables(self.phys(), self.root(), page@);
            old(allocator).lemma_can_supply_weaken(ms + 1, 1);
        }
        let frame = allocator.allocate().unwrap();
        proof {
            assert forall|n: nat| old(allocator).can_supply(n + 4) implies #[trigger] allocator.can_supply((n + 3) as nat) by {
                assert(allocator.can_supply(((n + 3) + 1) as nat) ==> allocator.can_supply(
                    (n + 3) as nat,
                ));
            }
        }
        self.map_to(page, frame, flags, allocator);
    }

    /// Map the page at the frame's own address to that frame, so that the
    /// virtual and the physical address coincide.
    pub fn identity_map<A: FrameAllocator>(
        &mut self,
        frame: Frame,
        flags: EntryFlags,
        alloc: &mut A,
    )
        requires
            old(self).wf(),
            frame@ < 0x800000000,
            p4_field(frame@) != 511,
            flags_wf(flags@),
            no_huge_on_path(old(self).phys(), old(self).root(), frame@),
            leaf_unused(old(self).phys(), old(self).root(), frame@),
            old(alloc).can_supply(missing_tables(old(self).phys(), old(self).root(), frame@)),
            missing_tables(old(self).phys(), old(self).root(), frame@) > 0 ==> old(alloc).avail().disjoint(old(self).phys()@.dom()),
        ensures
            final(self).wf(),
            final(self).root() == old(self).root(),
            translate_page_spec(final(self).phys(), final(self).root(), frame@) == Some(frame@),
            forall|r2: u64, q: u64|
                #![trigger translate_page_spec(final(self).phys(), r2, q)]
                old(self).phys().is_root(r2) && p4_field(q) != 511 && canonical_index(q as int)
                    && !(r2 == old(self).root() && q == frame@) ==> translate_page_spec(
                    final(self).phys(),
                    r2,
                    q,
                ) == translate_page_spec(old(self).phys(), r2, q),
            forall|g: u64| #[trigger]
                old(self).phys()@.contains_key(g) ==> final(self).phys()@.contains_key(g) && final(self).phys().lvl(g) == old(self).phys().lvl(g),
            forall|g: u64| final(self).phys().is_root(g) == old(self).phys().is_root(g),
            final(alloc).avail() <= old(alloc).avail(),
            forall|n: nat|
                old(alloc).can_supply(n + 3) ==> #[trigger] final(alloc).can_supply(n),
            old(alloc).avail().disjoint(old(self).phys()@.dom()) ==> final(alloc).avail().disjoint(final(self).phys()@.dom()),
    {
        proof {
            vstd::arithmetic::div_mod::lemma_fundamental_div_mod(frame@ as int, 4096);
        }
        let page = Page::containing_addr(frame.start_addr());
        assert(page@ == frame@) by {
            assert(frame@ * 4096 / 4096 == frame@) by (nonlinear_arith);
        }
        self.map_to(page, frame, flags, alloc);
    }
}

proof fn lemma_flags_or_wf_one(a: u64)
    requires
        flags_wf(a),
    ensures
        flags_wf(a | 1),
{
    assert(a & !0x8000_0000_0000_01ff == 0 ==> (a | 1) & !0x8000_0000_0000_01ff == 0)
        by (bit_vector);
}

/// Pack a leaf entry from a frame and flags, exactly as `Entry::set` does.
fn make_entry_exec(frame: Frame, flags: EntryFlags) -> (r: u64)
    requires
        frame@ < MAX_ENTRY_FRAME,
        flags_wf(flags@),
    ensures
        r == make_entry(frame@, flags@),
{
    let mut e = Entry::from_bits(0);
    e.set(frame, flags);
    e.bits()
}

impl Mapper {
    /// A mapper over empty physical memory, bound to nothing yet: the
    /// starting point for building the first address space, and the
    /// placeholder while the real mapper is moved through the bootstrap
    /// protocol.
    pub fn detached() -> (r: Mapper)
        ensures
            r.phys().wf(),
            r.phys()@ == Map::<u64, Seq<u64>>::empty(),
            r.root() == 0,
    {
        Mapper { mem: PhysMem::new(), p4: Frame::containing_addr(0) }
    }

    /// The frame of the root table, as a value.
    pub fn root_frame(&self) -> (r: Frame)
        ensures
            r@ == self.root(),
    {
        self.p4
    }

    /// Point this view at another level-4 table. This is how the view
    /// follows a change of the hardware table base.
    pub fn set_root(&mut self, p4: Frame)
        ensures
            final(self).phys() == old(self).phys(),
            final(self).root() == p4@,
    {
        self.p4 = p4;
    }

    /// Write the recursive slot (slot 511) of the level-4 table in `at` so
    /// that it points at `to`. No ordinary walk reads that slot, so every
    /// translation survives; this is the pivot of the bootstrap protocol.
    pub fn point_recursive(&mut self, at: u64, to: Frame)
        requires
            old(self).phys().wf(),
            old(self).phys()@.contains_key(at),
            old(self).phys().lvl(at) == 4,
            to@ < MAX_ENTRY_FRAME,
        ensures
            final(self).root() == old(self).root(),
            final(self).phys().wf(),
            final(self).phys()@ == old(self).phys()@.insert(
                at,
                old(self).phys()@[at].update(511, make_entry(to@, 3)),
            ),
            final(self).phys().levels_map() == old(self).phys().levels_map(),
            forall|r2: u64, q: u64|
                #![trigger l3_table(final(self).phys(), r2, q)]
                #![trigger l1_table(final(self).phys(), r2, q)]
                #![trigger leaf_entry(final(self).phys(), r2, q)]
                #![trigger translate_page_spec(final(self).phys(), r2, q)]
                old(self).phys().is_root(r2) && p4_field(q) != 511 ==> {
                    &&& l3_table(final(self).phys(), r2, q) == l3_table(old(self).phys(), r2, q)
                    &&& l2_table(final(self).phys(), r2, q) == l2_table(old(self).phys(), r2, q)
                    &&& l1_table(final(self).phys(), r2, q) == l1_table(old(self).phys(), r2, q)
                    &&& leaf_entry(final(self).phys(), r2, q) == leaf_entry(
                        old(self).phys(),
                        r2,
                        q,
                    )
                    &&& no_huge_on_path(final(self).phys(), r2, q) == no_huge_on_path(
                        old(self).phys(),
                        r2,
                        q,
                    )
                    &&& translate_page_spec(final(self).phys(), r2, q) == translate_page_spec(
                        old(self).phys(),
                        r2,
                        q,
                    )
                },
    {
        proof {
            lemma_child_entry_bits();
            lemma_entry_unpack(to@, 3);
        }
        let entry = make_entry_exec(to, EntryFlags::present().union(EntryFlags::writable()));
        proof {
            assert(self.phys().write_ok(at, 511, entry));
        }
        self.mem.write_entry(at, 511, entry);
        proof {
            let m0 = old(self).phys();
            let m1 = self.phys();
            assert forall|r2: u64, q: u64|
                #![trigger l3_table(m1, r2, q)]
                #![trigger l1_table(m1, r2, q)]
                #![trigger leaf_entry(m1, r2, q)]
                #![trigger translate_page_spec(m1, r2, q)]
                m0.is_root(r2) && p4_field(q) != 511 implies {
                &&& l3_table(m1, r2, q) == l3_table(m0, r2, q)
                &&& l2_table(m1, r2, q) == l2_table(m0, r2, q)
                &&& l1_table(m1, r2, q) == l1_table(m0, r2, q)
                &&& leaf_entry(m1, r2, q) == leaf_entry(m0, r2, q)
                &&& no_huge_on_path(m1, r2, q) == no_huge_on_path(m0, r2, q)
                &&& translate_page_spec(m1, r2, q) == translate_page_spec(m0, r2, q)
            } by {
                lemma_fields_bounded(q);
                lemma_path_structure(m0, r2, q);
                assert(!walk_reads(m0, r2, q, at, 511));
                lemma_update_preserves_walk(m0, m1, at, 511, entry, r2, q);
            }
        }
    }

    /// Install a fresh, zeroed level-4 table in `frame`, with its recursive
    /// slot pointing back at itself, leaving every existing translation
    /// untouched.
    pub fn install_root(&mut self, frame: Frame)
        requires
            old(self).phys().wf(),
            !old(self).phys()@.contains_key(frame@),
            frame@ < MAX_ENTRY_FRAME,
        ensures
            final(self).root() == old(self).root(),
            final(self).phys().wf(),
            final(self).phys().is_root(frame@),
            final(self).phys()@[frame@] == zero_table().update(511, make_entry(frame@, 3)),
            forall|g: u64| #[trigger]
                old(self).phys()@.contains_key(g) ==> final(self).phys()@.contains_key(g) && final(self).phys().lvl(g) == old(self).phys().lvl(g),
            forall|g: u64| #[trigger]
                final(self).phys()@.contains_key(g) ==> old(self).phys()@.contains_key(g) || g
                    == frame@,
            forall|r2: u64, q: u64|
                #![trigger l3_table(final(self).phys(), r2, q)]
                #![trigger l1_table(final(self).phys(), r2, q)]
                #![trigger leaf_entry(final(self).phys(), r2, q)]
                #![trigger translate_page_spec(final(self).phys(), r2, q)]
                old(self).phys().is_root(r2) && p4_field(q) != 511 ==> {
                    &&& l3_table(final(self).phys(), r2, q) == l3_table(old(self).phys(), r2, q)
                    &&& l2_table(final(self).phys(), r2, q) == l2_table(old(self).phys(), r2, q)
                    &&& l1_table(final(self).phys(), r2, q) == l1_table(old(self).phys(), r2, q)
                    &&& leaf_entry(final(self).phys(), r2, q) == leaf_entry(
                        old(self).phys(),
                        r2,
                        q,
                    )
                    &&& no_huge_on_path(final(self).phys(), r2, q) == no_huge_on_path(
                        old(self).phys(),
                        r2,
                        q,
                    )
                    &&& translate_page_spec(final(self).phys(), r2, q) == translate_page_spec(
                        old(self).phys(),
                        r2,
                        q,
                    )
                },
            forall|q: u64| #![trigger p4_field(q)]
                p4_field(q) != 511 ==> l3_table(final(self).phys(), frame@, q) is None
                    && leaf_entry(final(self).phys(), frame@, q) == 0 && translate_page_spec(
                    final(self).phys(),
                    frame@,
                    q,
                ) is None && no_huge_on_path(final(self).phys(), frame@, q),
    {
        let ghost m0 = self.phys();
        self.mem.add_table(frame.index(), Ghost(4));
        let ghost ma = self.phys();
        self.point_recursive(frame.index(), frame);
        proof {
            let m1 = self.phys();
            lemma_insert_preserves_walks(m0, ma, frame@);
            lemma_child_entry_bits();
            lemma_entry_unpack(frame@, 3);
            lemma_zero_entry();
            assert(m1@[frame@] =~= zero_table().update(511, make_entry(frame@, 3)));
            assert forall|r2: u64, q: u64|
                #![trigger l3_table(m1, r2, q)]
                #![trigger l1_table(m1, r2, q)]
                #![trigger leaf_entry(m1, r2, q)]
                #![trigger translate_page_spec(m1, r2, q)]
                m0.is_root(r2) && p4_field(q) != 511 implies {
                &&& l3_table(m1, r2, q) == l3_table(m0, r2, q)
                &&& l2_table(m1, r2, q) == l2_table(m0, r2, q)
                &&& l1_table(m1, r2, q) == l1_table(m0, r2, q)
                &&& leaf_entry(m1, r2, q) == leaf_entry(m0, r2, q)
                &&& no_huge_on_path(m1, r2, q) == no_huge_on_path(m0, r2, q)
                &&& translate_page_spec(m1, r2, q) == translate_page_spec(m0, r2, q)
            } by {
                assert(ma.is_root(r2));
            }
            assert forall|q: u64| p4_field(q) != 511 implies #[trigger] p4_field(q) != 511
                && l3_table(m1, frame@, q) is None && leaf_entry(m1, frame@, q) == 0
                && translate_page_spec(m1, frame@, q) is None && no_huge_on_path(
                m1,
                frame@,
                q,
            ) by {
                lemma_fields_bounded(q);
                assert(entry_at(m1, frame@, p4_field(q)) == 0);
            }
        }
    }
}

/// Some present, non-huge entry of the table in `a` points at the table in
/// `t`: one step of the diagnostic tree walk.
pub open spec fn walk_edge(m: PhysMem, a: u64, t: u64) -> bool {
    &&& m@.contains_key(a)
    &&& m@.contains_key(t)
    &&& exists|i: int|
        0 <= i < 512 && entry_present(#[trigger] m@[a][i]) && !entry_huge(m@[a][i])
            && entry_frame(m@[a][i]) == t
}

/// Table `t` is reachable from `r` in at most `k` walk steps.
pub open spec fn table_reachable(m: PhysMem, r: u64, t: u64, k: nat) -> bool
    decreases k,
{
    t == r || (k > 0 && exists|a: u64|
        table_reachable(m, r, a, (k - 1) as nat) && #[trigger] walk_edge(m, a, t))
}

/// Frame `g` is pointed at by some present entry of a table reachable from
/// `r`: what the bootstrap-recovery scan collects.
pub open spec fn frame_recoverable(m: PhysMem, r: u64, g: u64) -> bool {
    exists|t: u64, i: int|
        table_reachable(m, r, t, 3) && 0 <= i < 512 && m@.contains_key(t) && entry_present(
            #[trigger] m@[t][i],
        ) && entry_frame(m@[t][i]) == g
}

/// Reachability in at most `k` steps never shrinks with a larger budget.
pub proof fn lemma_reachable_mono(m: PhysMem, r: u64, t: u64, k1: nat, k2: nat)
    requires
        table_reachable(m, r, t, k1),
        k1 <= k2,
    ensures
        table_reachable(m, r, t, k2),
    decreases k1,
{
    if t != r {
        let a = choose|a: u64|
            table_reachable(m, r, a, (k1 - 1) as nat) && #[trigger] walk_edge(m, a, t);
        lemma_reachable_mono(m, r, a, (k1 - 1) as nat, (k2 - 1) as nat);
    }
}

impl Mapper {
    /// The frames of tables one walk step below `t`.
    fn children_in_mem(&self, t: u64) -> (r: Vec<u64>)
        requires
            self.wf(),
            self.phys()@.contains_key(t),
        ensures
            forall|k: int|
                0 <= k < r@.len() ==> walk_edge(self.phys(), t, #[trigger] r@[k]),
            forall|u: u64| #[trigger] walk_edge(self.phys(), t, u) ==> r@.contains(u),
    {
        let table = self.mem.table_ref(t);
        let children = table.children();
        let ghost row = self.phys()@[t];
        let mut out: Vec<u64> = Vec::new();
        let mut i: usize = 0;
        while i < children.len()
            invariant
                self.wf(),
                self.phys()@.contains_key(t),
                row == self.phys()@[t],
                children@.map_values(|f: Frame| f@) == crate::paging::table::children_of(row),
                i <= children@.len(),
                forall|k: int|
                    0 <= k < out@.len() ==> walk_edge(self.phys(), t, #[trigger] out@[k]),
                forall|k: int|
                    0 <= k < i && self.phys()@.contains_key(#[trigger] children@[k]@)
                        ==> out@.contains(children@[k]@),
            decreases children@.len() - i,
        {
            let child = children[i];
            let child_index = child.index();
            proof {
                assert(children@[i as int]@ == child@);
            }
            if self.mem.contains_frame(child_index) {
                proof {
                    assert(crate::paging::table::children_of(row).contains(child@)) by {
                        assert(children@.map_values(|f: Frame| f@)[i as int] == child@);
                    }
                    crate::paging::table::lemma_children_of_member(row, child@);
                    let i3 = choose|i3: int|
                        0 <= i3 < row.len() && entry_present(#[trigger] row[i3]) && !entry_huge(
                            row[i3],
                        ) && entry_frame(row[i3]) == child@;
                    assert(entry_present(self.phys()@[t][i3]) && !entry_huge(self.phys()@[t][i3])
                        && entry_frame(self.phys()@[t][i3]) == child@);
                    assert(row.len() == 512);
                    assert(walk_edge(self.phys(), t, child@));
                }
                let ghost out_pre = out@;
                out.push(child_index);
                proof {
                    assert forall|x: u64| out_pre.contains(x) implies out@.contains(x) by {
                        let j = choose|j: int| 0 <= j < out_pre.len() && out_pre[j] == x;
                        assert(out@[j] == x);
                    }
                    assert forall|k: int| 0 <= k < out@.len() implies walk_edge(
                        self.phys(),
                        t,
                        #[trigger] out@[k],
                    ) by {
                        if k == out@.len() - 1 {
                            assert(out@[k] == child@);
                        }
                    }
                    assert(children@[i as int]@ == child@);
                    assert(out@.contains(child@)) by {
                        assert(out@[out@.len() - 1] == child@);
                    }
                }
            }
            i = i + 1;
        }
        proof {
            assert forall|u: u64| #[trigger] walk_edge(self.phys(), t, u) implies out@.contains(
                u,
            ) by {
                let i2 = choose|i2: int|
                    0 <= i2 < 512 && entry_present(#[trigger] self.phys()@[t][i2]) && !entry_huge(
                        self.phys()@[t][i2],
                    ) && entry_frame(self.phys()@[t][i2]) == u;
                assert(entry_present(row[i2]) && !entry_huge(row[i2]) && entry_frame(row[i2])
                    == u);
                assert(row.len() == 512);
                crate::paging::table::lemma_children_of_contains(row, i2);
                let k = choose|k: int|
                    0 <= k < crate::paging::table::children_of(row).len()
                        && crate::paging::table::children_of(row)[k] == u;
                assert(children@.map_values(|f: Frame| f@)[k] == u);
                assert(children@[k]@ == u);
            }
        }
        out
    }

    /// Scan the live tree and collect every frame a present entry points at
    /// into a growable frame set: bootstrap recovery for mappings whose
    /// ownership was never recorded. It needs a working heap.
    pub fn recover_frames(&self) -> (r: VecFrameSet)
        requires
            self.wf(),
        ensures
            forall|g: u64| #[trigger]
                r.frames_seq().contains(g) <==> frame_recoverable(self.phys(), self.root(), g),
    {
        let ghost m = self.phys();
        let ghost rt = self.root();
        let root_frame = self.p4.index();
        // gather the root and three levels of children
        let c1 = self.children_in_mem(root_frame);
        let mut list: Vec<u64> = Vec::new();
        list.push(root_frame);
        proof {
            assert(list@[0] == rt);
            assert(table_reachable(m, rt, rt, 3));
        }
        let mut i: usize = 0;
        while i < c1.len()
            invariant
                self.wf(),
                m == self.phys(),
                rt == self.root(),
                self.phys()@.contains_key(rt),
                i <= c1@.len(),
                list@.len() > 0 && list@[0] == rt,
                forall|k: int| 0 <= k < c1@.len() ==> walk_edge(m, rt, #[trigger] c1@[k]),
                forall|k: int|
                    0 <= k < list@.len() ==> m@.contains_key(#[trigger] list@[k])
                        && table_reachable(m, rt, list@[k], 3),
                forall|k: int| 0 <= k < i ==> list@.contains(#[trigger] c1@[k]),
                forall|k: int, u: u64|
                    0 <= k < i && #[trigger] walk_edge(m, c1@[k], u) ==> list@.contains(u),
                forall|k1: int, u1: u64, u2: u64|
                    0 <= k1 < i && #[trigger] walk_edge(m, c1@[k1], u1) && #[trigger] walk_edge(
                        m,
                        u1,
                        u2,
                    ) ==> list@.contains(u2),
            decreases c1@.len() - i,
        {
            let t3 = c1[i];
            proof {
                assert(c1@[i as int] == t3);
                assert(walk_edge(m, rt, t3));
            }
            let ghost list_pre = list@;
            list.push(t3);
            proof {
                lemma_push_keeps(list_pre, list@, t3);
                assert(table_reachable(m, rt, rt, 0));
                assert(table_reachable(m, rt, t3, 3)) by {
                    lemma_reachable_mono(m, rt, t3, 1, 3);
                }
            }
            let c2 = self.children_in_mem(t3);
            let mut j: usize = 0;
            while j < c2.len()
                invariant
                    self.wf(),
                    m == self.phys(),
                    rt == self.root(),
                    i < c1@.len(),
                    t3 == c1@[i as int],
                    walk_edge(m, rt, t3),
                    j <= c2@.len(),
                    list@.len() > 0 && list@[0] == rt,
                    list@.contains(t3),
                    forall|k: int| 0 <= k < c2@.len() ==> walk_edge(m, t3, #[trigger] c2@[k]),
                    forall|k: int|
                        0 <= k < list@.len() ==> m@.contains_key(#[trigger] list@[k])
                            && table_reachable(m, rt, list@[k], 3),
                    forall|k: int| 0 <= k < i ==> list@.contains(#[trigger] c1@[k]),
                    forall|k: int, u: u64|
                        0 <= k < i && #[trigger] walk_edge(m, c1@[k], u) ==> list@.contains(u),
                    forall|k1: int, u1: u64, u2: u64|
                        0 <= k1 < i && #[trigger] walk_edge(m, c1@[k1], u1)
                            && #[trigger] walk_edge(m, u1, u2) ==> list@.contains(u2),
                    forall|k: int| 0 <= k < j ==> list@.contains(#[trigger] c2@[k]),
                    forall|k: int, u: u64|
                        0 <= k < j && #[trigger] walk_edge(m, c2@[k], u) ==> list@.contains(u),
                decreases c2@.len() - j,
            {
                let t2 = c2[j];
                proof {
                    assert(c2@[j as int] == t2);
                    assert(walk_edge(m, t3, t2));
                }
                let ghost list_pre = list@;
                list.push(t2);
                proof {
                    lemma_push_keeps(list_pre, list@, t2);
                    assert(table_reachable(m, rt, t2, 3)) by {
                        assert(table_reachable(m, rt, rt, 0));
                        assert(table_reachable(m, rt, t3, 1));
                        lemma_reachable_mono(m, rt, t2, 2, 3);
                    }
                }
                let c3 = self.children_in_mem(t2);
                let mut j3: usize = 0;
                while j3 < c3.len()
                    invariant
                        self.wf(),
                        m == self.phys(),
                        rt == self.root(),
                        walk_edge(m, rt, t3),
                        walk_edge(m, t3, t2),
                        j3 <= c3@.len(),
                        list@.len() > 0 && list@[0] == rt,
                        list@.contains(t3),
                        list@.contains(t2),
                        forall|k: int| 0 <= k < c3@.len() ==> walk_edge(m, t2, #[trigger] c3@[k]),
                        forall|k: int|
                            0 <= k < list@.len() ==> m@.contains_key(#[trigger] list@[k])
                                && table_reachable(m, rt, list@[k], 3),
                        forall|k: int| 0 <= k < i ==> list@.contains(#[trigger] c1@[k]),
                        forall|k: int, u: u64|
                            0 <= k < i && #[trigger] walk_edge(m, c1@[k], u) ==> list@.contains(
                                u,
                            ),
                        forall|k1: int, u1: u64, u2: u64|
                            0 <= k1 < i && #[trigger] walk_edge(m, c1@[k1], u1)
                                && #[trigger] walk_edge(m, u1, u2) ==> list@.contains(u2),
                        forall|k: int| 0 <= k < j ==> list@.contains(#[trigger] c2@[k]),
                        forall|k: int, u: u64|
                            0 <= k < j && #[trigger] walk_edge(m, c2@[k], u) ==> list@.contains(
                                u,
                            ),
                        forall|k: int| 0 <= k < j3 ==> list@.contains(#[trigger] c3@[k]),
                    decreases c3@.len() - j3,
                {
                    let t1 = c3[j3];
                    proof {
                        assert(c3@[j3 as int] == t1);
                        assert(walk_edge(m, t2, t1));
                    }
                    let ghost list_pre = list@;
                    list.push(t1);
                    proof {
                        lemma_push_keeps(list_pre, list@, t1);
                        assert(table_reachable(m, rt, t1, 3)) by {
                            assert(table_reachable(m, rt, rt, 0));
                            assert(table_reachable(m, rt, t3, 1));
                            assert(table_reachable(m, rt, t2, 2));
                        }
                    }
                    j3 = j3 + 1;
                }
                j = j + 1;
            }
            i = i + 1;
        }
        proof {
            // completeness of the gathered list: unfold three steps
            assert forall|t: u64| table_reachable(m, rt, t, 3) implies list@.contains(t) by {
                assert(list@.contains(rt)) by {
                    assert(list@[0] == rt);
                }
                if t != rt {
                    let a2 = choose|a2: u64|
                        table_reachable(m, rt, a2, 2) && #[trigger] walk_edge(m, a2, t);
                    if a2 == rt {
                        assert(c1@.contains(t));
                        let k = choose|k: int| 0 <= k < c1@.len() && c1@[k] == t;
                        assert(list@.contains(c1@[k]));
                    } else {
                        let a1 = choose|a1: u64|
                            table_reachable(m, rt, a1, 1) && #[trigger] walk_edge(m, a1, a2);
                        if a1 == rt {
                            assert(c1@.contains(a2));
                            let k = choose|k: int| 0 <= k < c1@.len() && c1@[k] == a2;
                            assert(walk_edge(m, c1@[k], t));
                        } else {
                            let a0 = choose|a0: u64|
                                table_reachable(m, rt, a0, 0) && #[trigger] walk_edge(m, a0, a1);
                            assert(a0 == rt);
                            assert(c1@.contains(a1));
                            let k = choose|k: int| 0 <= k < c1@.len() && c1@[k] == a1;
                            assert(walk_edge(m, c1@[k], a2) && walk_edge(m, a2, t));
                        }
                    }
                }
            }
        }
        // collect the frames of every present entry of every listed table
        let mut found = VecFrameSet::new();
        let mut p: usize = 0;
        while p < list.len()
            invariant
                self.wf(),
                m == self.phys(),
                rt == self.root(),
                p <= list@.len(),
                forall|k: int|
                    0 <= k < list@.len() ==> m@.contains_key(#[trigger] list@[k])
                        && table_reachable(m, rt, list@[k], 3),
                forall|t: u64| #[trigger]
                    table_reachable(m, rt, t, 3) && m@.contains_key(t) ==> list@.contains(t),
                forall|g: u64| #[trigger]
                    found.frames_seq().contains(g) ==> frame_recoverable(m, rt, g),
                forall|k: int, s2: int|
                    0 <= k < p && 0 <= s2 < 512 && entry_present(#[trigger] m@[list@[k]][s2])
                        ==> found.frames_seq().contains(entry_frame(m@[list@[k]][s2])),
            decreases list@.len() - p,
        {
            let t = list[p];
            let mut s: usize = 0;
            while s < 512
                invariant
                    self.wf(),
                    m == self.phys(),
                    rt == self.root(),
                    p < list@.len(),
                    t == list@[p as int],
                    m@.contains_key(t),
                    table_reachable(m, rt, t, 3),
                    s <= 512,
                    forall|g: u64| #[trigger]
                        found.frames_seq().contains(g) ==> frame_recoverable(m, rt, g),
                    forall|k: int, s2: int|
                        0 <= k < p && 0 <= s2 < 512 && entry_present(#[trigger] m@[list@[k]][s2])
                            ==> found.frames_seq().contains(entry_frame(m@[list@[k]][s2])),
                    forall|s2: int|
                        0 <= s2 < s && entry_present(#[trigger] m@[t][s2])
                            ==> found.frames_seq().contains(entry_frame(m@[t][s2])),
                decreases 512 - s,
            {
                let e = Entry::from_bits(self.mem.read_entry(t, s));
                match e.pointed_frame() {
                    Some(frame) => {
                        proof {
                            found.lemma_always_room();
                        }
                        let ghost found_pre = found.frames_seq();
                        let added = found.add(frame);
                        proof {
                            assert(added is Ok);
                            assert(found.frames_seq() == found_pre.push(frame@));
                            lemma_push_keeps(found_pre, found.frames_seq(), frame@);
                            assert(found.frames_seq().contains(frame@));
                            assert(frame_recoverable(m, rt, frame@)) by {
                                assert(entry_present(m@[t][s as int]) && entry_frame(
                                    m@[t][s as int],
                                ) == frame@);
                            }
                        }
                    },
                    None => {},
                }
                s = s + 1;
            }
            p = p + 1;
        }
        proof {
            assert forall|g: u64| frame_recoverable(m, rt, g) implies #[trigger] found.frames_seq().contains(g) by {
                let (t, i3): (u64, int) = choose|t: u64, i3: int|
                    table_reachable(m, rt, t, 3) && 0 <= i3 < 512 && m@.contains_key(t)
                        && entry_present(#[trigger] m@[t][i3]) && entry_frame(m@[t][i3]) == g;
                assert(list@.contains(t));
                let k = choose|k: int| 0 <= k < list@.len() && list@[k] == t;
                assert(found.frames_seq().contains(entry_frame(m@[list@[k]][i3])));
            }
        }
        found
    }
}

/// Pushing keeps every member and adds the new one.
proof fn lemma_push_keeps(pre: Seq<u64>, post: Seq<u64>, v: u64)
    requires
        post == pre.push(v),
    ensures
        forall|x: u64| pre.contains(x) ==> #[trigger] post.contains(x),
        post.contains(v),
        forall|k: int| 0 <= k < pre.len() ==> #[trigger] post[k] == pre[k],
        forall|x: u64| #[trigger] post.contains(x) ==> pre.contains(x) || x == v,
{
    assert forall|x: u64| pre.contains(x) implies #[trigger] post.contains(x) by {
        let k = choose|k: int| 0 <= k < pre.len() && pre[k] == x;
        assert(post[k] == x);
    }
    assert(post[post.len() - 1] == v);
    assert forall|x: u64| #[trigger] post.contains(x) implies pre.contains(x) || x == v by {
        let k = choose|k: int| 0 <= k < post.len() && post[k] == x;
        if k < pre.len() {
            assert(pre[k] == x);
        }
    }
}

} // verus!
