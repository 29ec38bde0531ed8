//! The model of physical memory that page tables live in: a partial map from
//! frame index to 512-entry table, together with the level (4 down to 1) at
//! which each table sits.
//!
//! The central invariant is that of the spec: at any instant a physical frame
//! is referenced by at most one present, non-huge entry across all trees, and
//! a child is always exactly one level below its parent. Slot 511 of a
//! level-4 table is exempt: by the recursive-mapping convention it points
//! back at the table itself.

use std::collections::HashMap;
use vstd::prelude::*;
use crate::paging::table::{Table, zero_table};
use crate::paging::entry::{Entry, entry_present, entry_huge, entry_frame};

verus! {

broadcast use vstd::std_specs::hash::group_hash_axioms;

/// Physical memory as the page-table trees see it.
pub struct PhysMem {
    tables: HashMap<u64, Table>,
    levels: Ghost<Map<u64, int>>,
}

impl View for PhysMem {
    type V = Map<u64, Seq<u64>>;

    closed spec fn view(&self) -> Map<u64, Seq<u64>> {
        Map::new(|f: u64| self.tables@.contains_key(f), |f: u64| self.tables@[f]@)
    }
}

impl PhysMem {
    /// The level, 4 down to 1, of the table held by frame `f`.
    pub open spec fn lvl(self, f: u64) -> int {
        self.levels_map()[f]
    }

    /// The whole level assignment, so callers can state that it is unchanged.
    pub closed spec fn levels_map(self) -> Map<u64, int> {
        self.levels@
    }

    pub closed spec fn data_wf(self) -> bool {
        self.levels@.dom() == self@.dom()
    }

    /// Slot `i` of table `t` points at a child table: the entry is present
    /// and not huge, the table is above level 1, and the slot is not the
    /// recursive slot of a level-4 table.
    pub open spec fn child_slot(self, t: u64, i: int) -> bool {
        &&& self@.contains_key(t)
        &&& 0 <= i < 512
        &&& 2 <= self.lvl(t)
        &&& !(self.lvl(t) == 4 && i == 511)
        &&& entry_present(self@[t][i])
        &&& !entry_huge(self@[t][i])
    }

    /// The frame slot `i` of table `t` points at.
    pub open spec fn slot_target(self, t: u64, i: int) -> u64 {
        entry_frame(self@[t][i])
    }

    /// Slot `i` of table `t` holds a present huge-page entry.
    pub open spec fn huge_slot(self, t: u64, i: int) -> bool {
        &&& self@.contains_key(t)
        &&& 0 <= i < 512
        &&& entry_present(self@[t][i])
        &&& entry_huge(self@[t][i])
    }

    /// The forest invariant: every table sits at a level between 4 and 1 and
    /// holds 512 entries; a child slot points at a table exactly one level
    /// down; no frame has two parents; and huge entries at levels 3 and 2
    /// are aligned to the size they map.
    pub open spec fn tree_wf(self) -> bool {
        &&& forall|t: u64| #[trigger]
            self@.contains_key(t) ==> 1 <= self.lvl(t) <= 4 && self@[t].len() == 512
        &&& forall|t: u64, i: int| #[trigger]
            self.child_slot(t, i) ==> self@.contains_key(self.slot_target(t, i)) && self.lvl(
                self.slot_target(t, i),
            ) == self.lvl(t) - 1
        &&& forall|t: u64, i: int, u: u64, j: int|
            #![trigger self.child_slot(t, i), self.child_slot(u, j)]
            self.child_slot(t, i) && self.child_slot(u, j) && self.slot_target(t, i)
                == self.slot_target(u, j) ==> t == u && i == j
        &&& forall|t: u64, i: int| #[trigger]
            self.huge_slot(t, i) && self.lvl(t) == 3 ==> self.slot_target(t, i) % 0x40000 == 0
        &&& forall|t: u64, i: int| #[trigger]
            self.huge_slot(t, i) && self.lvl(t) == 2 ==> self.slot_target(t, i) % 512 == 0
    }

    /// Well-formed physical memory.
    pub open spec fn wf(self) -> bool {
        self.data_wf() && self.tree_wf()
    }

    /// Frame `f` holds the root of an address space: a level-4 table.
    pub open spec fn is_root(self, f: u64) -> bool {
        self@.contains_key(f) && self.lvl(f) == 4
    }

    /// Empty physical memory: no table frames at all.
    pub fn new() -> (r: PhysMem)
        ensures
            r.wf(),
            r@ == Map::<u64, Seq<u64>>::empty(),
    {
        let r = PhysMem { tables: HashMap::new(), levels: Ghost(Map::empty()) };
        proof {
            assert(r@ =~= Map::<u64, Seq<u64>>::empty());
            assert(r.levels@.dom() =~= r@.dom());
        }
        r
    }

    /// Whether frame `f` currently holds a table.
    pub fn contains_frame(&self, f: u64) -> (r: bool)
        ensures
            r == self@.contains_key(f),
    {
        self.tables.contains_key(&f)
    }

    /// Read entry `i` of the table in frame `f`.
    pub fn read_entry(&self, f: u64, i: usize) -> (r: u64)
        requires
            self.wf(),
            self@.contains_key(f),
            i < 512,
        ensures
            r == self@[f][i as int],
    {
        let table = self.tables.get(&f).unwrap();
        table.entry(i).bits()
    }

    /// Borrow the table held by frame `f`.
    pub fn table_ref(&self, f: u64) -> (r: &Table)
        requires
            self.wf(),
            self@.contains_key(f),
        ensures
            r@ == self@[f],
            r.wf(),
    {
        self.tables.get(&f).unwrap()
    }

    /// The write leaves the forest invariant intact: if the new entry forms
    /// a child slot it must point at a table one level down that no other
    /// slot points at, and a huge entry must be aligned to the size it maps.
    pub open spec fn write_ok(self, f: u64, i: int, value: u64) -> bool {
        &&& ((entry_present(value) && !entry_huge(value) && 2 <= self.lvl(f) && !(self.lvl(f) == 4
            && i == 511)) ==> {
            &&& self@.contains_key(entry_frame(value))
            &&& self.lvl(entry_frame(value)) == self.lvl(f) - 1
            &&& forall|t: u64, j: int| #[trigger]
                self.child_slot(t, j) && !(t == f && j == i) ==> self.slot_target(t, j)
                    != entry_frame(value)
        })
        &&& (self.lvl(f) == 3 && entry_present(value) && entry_huge(value) ==> entry_frame(value)
            % 0x40000 == 0)
        &&& (self.lvl(f) == 2 && entry_present(value) && entry_huge(value) ==> entry_frame(value)
            % 512 == 0)
    }

    /// Write entry `i` of the table in frame `f`.
    pub fn write_entry(&mut self, f: u64, i: usize, value: u64)
        requires
            old(self).wf(),
            old(self)@.contains_key(f),
            i < 512,
            old(self).write_ok(f, i as int, value),
        ensures
            final(self).wf(),
            final(self)@ == old(self)@.insert(f, old(self)@[f].update(i as int, value)),
            final(self).levels_map() == old(self).levels_map(),
    {
        let mut table = self.tables.remove(&f).unwrap();
        table.set_entry(i, Entry::from_bits(value));
        self.tables.insert(f, table);
        proof {
            let m1 = *old(self);
            let m2 = *self;
            assert(m2@ =~= m1@.insert(f, m1@[f].update(i as int, value)));
            lemma_write_preserves_wf(m1, m2, f, i as int, value);
        }
    }

    /// Install a fresh zeroed table in frame `f`, at the given level.
    pub fn add_table(&mut self, f: u64, Ghost(level): Ghost<int>)
        requires
            old(self).wf(),
            !old(self)@.contains_key(f),
            1 <= level <= 4,
        ensures
            final(self).wf(),
            final(self)@ == old(self)@.insert(f, zero_table()),
            final(self).levels_map() == old(self).levels_map().insert(f, level),
            forall|t: u64, j: int| #[trigger]
                final(self).child_slot(t, j) ==> final(self).slot_target(t, j) != f,
    {
        self.tables.insert(f, Table::new());
        self.levels = Ghost(self.levels@.insert(f, level));
        proof {
            let m1 = *old(self);
            let m2 = *self;
            assert(m2@ =~= m1@.insert(f, zero_table()));
            assert(m2.levels_map() =~= m1.levels_map().insert(f, level));
            lemma_add_preserves_wf(m1, m2, f, level);
        }
    }
}

/// A single entry write that satisfies `write_ok` keeps the forest invariant.
proof fn lemma_write_preserves_wf(m1: PhysMem, m2: PhysMem, f: u64, i: int, value: u64)
    requires
        m1.wf(),
        m1@.contains_key(f),
        0 <= i < 512,
        m1.write_ok(f, i, value),
        m2@ == m1@.insert(f, m1@[f].update(i, value)),
        m2.levels_map() == m1.levels_map(),
    ensures
        m2.wf(),
{
    assert(m2.levels_map().dom() =~= m2@.dom()) by {
        assert(m1.levels_map().dom() == m1@.dom());
        assert(m2@.dom() =~= m1@.dom().insert(f));
        assert(m1@.dom().contains(f));
        assert(m1@.dom().insert(f) =~= m1@.dom());
    }
    // entries other than (f, i) are unchanged
    assert forall|t: u64, j: int| m2@.contains_key(t) && 0 <= j < 512 && !(t == f && j
        == i) implies m2@[t][j] == m1@[t][j] by {}
    assert forall|t: u64| #[trigger] m2@.contains_key(t) implies 1 <= m2.lvl(t) <= 4 && m2@[t].len()
        == 512 by {
        assert(m1@.contains_key(t));
    }
    assert forall|t: u64, j: int| #[trigger] m2.child_slot(t, j) implies m2@.contains_key(
        m2.slot_target(t, j),
    ) && m2.lvl(m2.slot_target(t, j)) == m2.lvl(t) - 1 by {
        if t == f && j == i {
            assert(m1.write_ok(f, i, value));
        } else {
            assert(m1.child_slot(t, j));
        }
    }
    assert forall|t: u64, j: int, u: u64, k: int|
        m2.child_slot(t, j) && m2.child_slot(u, k) && m2.slot_target(t, j) == m2.slot_target(
            u,
            k,
        ) implies t == u && j == k by {
        if t == f && j == i {
            if !(u == f && k == i) {
                assert(m1.child_slot(u, k));
                assert(m1.slot_target(u, k) != entry_frame(value));
            }
        } else if u == f && k == i {
            assert(m1.child_slot(t, j));
            assert(m1.slot_target(t, j) != entry_frame(value));
        } else {
            assert(m1.child_slot(t, j));
            assert(m1.child_slot(u, k));
        }
    }
    assert forall|t: u64, j: int| #[trigger] m2.huge_slot(t, j) && m2.lvl(t) == 3 implies
        m2.slot_target(t, j) % 0x40000 == 0 by {
        if !(t == f && j == i) {
            assert(m1.huge_slot(t, j));
        }
    }
    assert forall|t: u64, j: int| #[trigger] m2.huge_slot(t, j) && m2.lvl(t) == 2 implies
        m2.slot_target(t, j) % 512 == 0 by {
        if !(t == f && j == i) {
            assert(m1.huge_slot(t, j));
        }
    }
}

/// Installing a fresh zeroed table keeps the forest invariant, and nothing
/// points at the new table.
proof fn lemma_add_preserves_wf(m1: PhysMem, m2: PhysMem, f: u64, level: int)
    requires
        m1.wf(),
        !m1@.contains_key(f),
        1 <= level <= 4,
        m2@ == m1@.insert(f, zero_table()),
        m2.levels_map() == m1.levels_map().insert(f, level),
    ensures
        m2.wf(),
        forall|t: u64, j: int| #[trigger] m2.child_slot(t, j) ==> m2.slot_target(t, j) != f,
{
    assert(m2.levels_map().dom() =~= m2@.dom()) by {
        assert(m1.levels_map().dom() == m1@.dom());
        assert(m2@.dom() =~= m1@.dom().insert(f));
        assert(m2.levels_map().dom() =~= m1.levels_map().dom().insert(f));
    }
    assert forall|t: u64| #[trigger] m2@.contains_key(t) implies 1 <= m2.lvl(t) <= 4 && m2@[t].len()
        == 512 by {
        if t == f {
            assert(m2@[f] == zero_table());
        } else {
            assert(m1@.contains_key(t));
        }
    }
    assert forall|t: u64, j: int| #[trigger] m2.child_slot(t, j) implies !(t == f) && m1.child_slot(
        t,
        j,
    ) by {
        if t == f {
            assert(m2@[f] == zero_table());
            assert(m2@[f][j] == 0);
            assert(0u64 & 1 != 1) by (bit_vector);
        }
    }
    assert forall|t: u64, j: int| #[trigger] m2.child_slot(t, j) implies m2@.contains_key(
        m2.slot_target(t, j),
    ) && m2.lvl(m2.slot_target(t, j)) == m2.lvl(t) - 1 && m2.slot_target(t, j) != f by {
        assert(m1.child_slot(t, j));
        assert(m1@.contains_key(m1.slot_target(t, j)));
    }
    assert forall|t: u64, j: int, u: u64, k: int|
        m2.child_slot(t, j) && m2.child_slot(u, k) && m2.slot_target(t, j) == m2.slot_target(
            u,
            k,
        ) implies t == u && j == k by {
        assert(m1.child_slot(t, j));
        assert(m1.child_slot(u, k));
    }
    assert forall|t: u64, j: int| #[trigger] m2.huge_slot(t, j) && m2.lvl(t) == 3 implies
        m2.slot_target(t, j) % 0x40000 == 0 by {
        if t == f {
            assert(m2@[f][j] == 0);
            assert(0u64 & 1 != 1) by (bit_vector);
        } else {
            assert(m1.huge_slot(t, j));
        }
    }
    assert forall|t: u64, j: int| #[trigger] m2.huge_slot(t, j) && m2.lvl(t) == 2 implies
        m2.slot_target(t, j) % 512 == 0 by {
        if t == f {
            assert(m2@[f][j] == 0);
            assert(0u64 & 1 != 1) by (bit_vector);
        } else {
            assert(m1.huge_slot(t, j));
        }
    }
}

} // verus!
