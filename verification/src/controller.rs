//! Top-level memory initialization: build a fresh address space offline,
//! populate it through the scratch-window protocol, switch to it, leave a
//! guard page where the old top-level table was, map the heap window, and
//! set up stack allocation.

use vstd::prelude::*;
use crate::frame::Frame;
use crate::frame_allocator::FrameAllocator;
use crate::frame_allocator::area_frame_allocator::AreaFrameAllocator;
use crate::frame_set::vec_set::VecFrameSet;
use crate::paging::page::{Page, PageIter, canonical_index};
use crate::paging::entry::{EntryFlags, entry_present, flags_wf, MAX_ENTRY_FRAME};
use crate::paging::active_page_table::{ActivePageTable, with_inner_pre, with_inner_post};
use crate::paging::inactive_page_table::InactivePageTable;
use crate::paging::temporary_page::TemporaryPage;
use crate::paging::mapper::{
    Mapper,
    translate_page_spec,
    l3_table,
    l1_table,
    leaf_entry,
    no_huge_on_path,
    leaf_unused,
    missing_tables,
};
use crate::stack_allocator::{Stack, StackAllocator};
use crate::bits::p4_field;

verus! {

/// One page to be mapped to one frame with the given flags when the new
/// address space is populated.
pub struct MapRequest {
    /// The virtual page.
    pub page: Page,
    /// The physical frame backing it.
    pub frame: Frame,
    /// The flags to map with.
    pub flags: EntryFlags,
}

/// The requests name distinct canonical pages outside the recursive region,
/// frames that fit entries, and clean flags.
pub open spec fn requests_wf(rs: Seq<MapRequest>) -> bool {
    &&& forall|i: int|
        0 <= i < rs.len() ==> p4_field((#[trigger] rs[i]).page@) != 511 && rs[i].frame@
            < MAX_ENTRY_FRAME && flags_wf(rs[i].flags@) && canonical_index(rs[i].page@ as int)
    &&& forall|i: int, j: int|
        0 <= i < rs.len() && 0 <= j < rs.len() && i != j ==> (#[trigger] rs[i]).page@ != (
        #[trigger] rs[j]).page@
}

/// Page `q` is named by one of the requests.
pub open spec fn request_page(rs: Seq<MapRequest>, q: u64) -> bool {
    exists|i: int| 0 <= i < rs.len() && (#[trigger] rs[i]).page@ == q
}

/// Populate the fresh address space `table` with `requests`, running the
/// ordinary mapper API against it through the scratch-window protocol.
#[verifier::rlimit(100)]
#[verifier::spinoff_prover]
pub fn populate_with<A: FrameAllocator>(
    active_table: &mut ActivePageTable,
    table: &mut InactivePageTable,
    temp_page: &mut TemporaryPage,
    requests: Vec<MapRequest>,
    allocator: A,
) -> (r: A)
    requires
        old(active_table).wf(),
        old(active_table).root() < MAX_ENTRY_FRAME,
        old(active_table).phys().is_root(old(table).frame_spec()),
        old(table).frame_spec() != old(active_table).root(),
        old(table).frame_spec() < MAX_ENTRY_FRAME,
        // the new space is still empty
        forall|q: u64| #![trigger p4_field(q)]
            p4_field(q) != 511 ==> l3_table(
                old(active_table).phys(),
                old(table).frame_spec(),
                q,
            ) is None && leaf_entry(old(active_table).phys(), old(table).frame_spec(), q) == 0
                && no_huge_on_path(old(active_table).phys(), old(table).frame_spec(), q),
        // the scratch window can be mapped and unmapped around the run
        p4_field(old(temp_page).page_spec()) != 511,
        translate_page_spec(
            old(active_table).phys(),
            old(active_table).root(),
            old(temp_page).page_spec(),
        ) is None,
        leaf_unused(old(active_table).phys(), old(active_table).root(), old(temp_page).page_spec()),
        no_huge_on_path(
            old(active_table).phys(),
            old(active_table).root(),
            old(temp_page).page_spec(),
        ),
        old(temp_page).allocator().can_supply(
            missing_tables(
                old(active_table).phys(),
                old(active_table).root(),
                old(temp_page).page_spec(),
            ),
        ),
        missing_tables(
            old(active_table).phys(),
            old(active_table).root(),
            old(temp_page).page_spec(),
        ) > 0 ==> old(temp_page).allocator().avail().disjoint(old(active_table).phys()@.dom()),
        missing_tables(
            old(active_table).phys(),
            old(active_table).root(),
            old(temp_page).page_spec(),
        ) == 0 ==> old(temp_page).allocator().can_release(old(active_table).root()),
        !old(temp_page).allocator().avail().contains(old(active_table).root()),
        // the requests and the allocator they draw from
        requests_wf(requests@),
        allocator.can_supply((3 * requests@.len()) as nat),
        allocator.avail().disjoint(old(active_table).phys()@.dom()),
        allocator.avail().disjoint(old(temp_page).allocator().avail()),
    ensures
        final(active_table).wf(),
        final(active_table).root() == old(active_table).root(),
        final(table).frame_spec() == old(table).frame_spec(),
        final(temp_page).page_spec() == old(temp_page).page_spec(),
        final(active_table).phys().is_root(old(table).frame_spec()),
        // every request is now translated in the new space
        forall|i: int|
            0 <= i < requests@.len() ==> translate_page_spec(
                final(active_table).phys(),
                old(table).frame_spec(),
                (#[trigger] requests@[i]).page@,
            ) == Some(requests@[i].frame@) && entry_present(
                leaf_entry(
                    final(active_table).phys(),
                    old(table).frame_spec(),
                    requests@[i].page@,
                ),
            ) && l1_table(
                final(active_table).phys(),
                old(table).frame_spec(),
                requests@[i].page@,
            ) is Some,
        // the interrupted active space reads as before, but for the window
        forall|q: u64|
            #![trigger translate_page_spec(final(active_table).phys(), old(active_table).root(), q)]
            p4_field(q) != 511 && canonical_index(q as int) && q != old(temp_page).page_spec()
                ==> translate_page_spec(final(active_table).phys(), old(active_table).root(), q)
                == translate_page_spec(old(active_table).phys(), old(active_table).root(), q),
        translate_page_spec(
            final(active_table).phys(),
            final(active_table).root(),
            old(temp_page).page_spec(),
        ) is None,
{
    let ghost m0 = active_table.phys();
    let ghost r0 = active_table.root();
    let ghost tf = table.frame_spec();
    let ghost reqs = requests@;
    let ghost tinyavail = temp_page.allocator().avail();
    let f = |m: Mapper, aux: (Vec<MapRequest>, A)| -> (out: (Mapper, (Vec<MapRequest>, A)))
        requires
            m.wf(),
            forall|q: u64| #![trigger p4_field(q)]
                p4_field(q) != 511 ==> l3_table(m.phys(), m.root(), q) is None && leaf_entry(
                    m.phys(),
                    m.root(),
                    q,
                ) == 0 && no_huge_on_path(m.phys(), m.root(), q),
            requests_wf(aux.0@),
            aux.1.can_supply((3 * aux.0@.len()) as nat),
            aux.1.avail().disjoint(m.phys()@.dom()),
        ensures
            out.0.wf(),
            out.0.root() == m.root(),
            out.1.0@ == aux.0@,
            forall|g: u64| #[trigger]
                m.phys()@.contains_key(g) ==> out.0.phys()@.contains_key(g) && out.0.phys().lvl(g)
                    == m.phys().lvl(g),
            forall|i: int|
                0 <= i < aux.0@.len() ==> translate_page_spec(
                    out.0.phys(),
                    out.0.root(),
                    (#[trigger] aux.0@[i]).page@,
                ) == Some(aux.0@[i].frame@) && entry_present(
                    leaf_entry(out.0.phys(), out.0.root(), aux.0@[i].page@),
                ) && l1_table(out.0.phys(), out.0.root(), aux.0@[i].page@) is Some,
            forall|r2: u64, q: u64|
                #![trigger l1_table(out.0.phys(), r2, q)]
                #![trigger leaf_entry(out.0.phys(), r2, q)]
                m.phys().is_root(r2) && r2 != m.root() && p4_field(q) != 511 ==> l1_table(
                    out.0.phys(),
                    r2,
                    q,
                ) == l1_table(m.phys(), r2, q) && leaf_entry(out.0.phys(), r2, q) == leaf_entry(
                    m.phys(),
                    r2,
                    q,
                ),
            forall|r2: u64, q: u64|
                #![trigger translate_page_spec(out.0.phys(), r2, q)]
                m.phys().is_root(r2) && r2 != m.root() && p4_field(q) != 511 && canonical_index(
                    q as int,
                ) ==> translate_page_spec(out.0.phys(), r2, q) == translate_page_spec(
                    m.phys(),
                    r2,
                    q,
                ),
        {
            apply_requests(m, aux)
        };
    proof {
        assert forall|m: Mapper, a: (Vec<MapRequest>, A)|
            with_inner_pre(m0, tf, tinyavail, m) && a == (requests, allocator) implies
            #[trigger] call_requires(f, (m, a)) by {
            assert forall|q: u64| p4_field(q) != 511 implies #[trigger] p4_field(q) != 511
                && l3_table(m.phys(), m.root(), q) is None && leaf_entry(m.phys(), m.root(), q)
                == 0 && no_huge_on_path(m.phys(), m.root(), q) by {
                assert(l3_table(m.phys(), tf, q) == l3_table(m0, tf, q));
            }
            assert forall|g: u64| a.1.avail().contains(g) implies !m.phys()@.contains_key(g) by {
                if m.phys()@.contains_key(g) {
                    assert(m0@.contains_key(g) || tinyavail.contains(g));
                }
            }
        }
        assert forall|m: Mapper, a: (Vec<MapRequest>, A), mo: Mapper, ro: (Vec<MapRequest>, A)|
            with_inner_pre(m0, tf, tinyavail, m) && #[trigger] call_ensures(
            f,
            (m, a),
            (mo, ro),
        ) implies with_inner_post(r0, m, mo) by {
            assert(m.phys().is_root(r0));
        }
    }
    let aux_out = active_table.with(table, temp_page, (requests, allocator), f);
    proof {
        let (m_in, m_out): (Mapper, Mapper) = choose|m_in: Mapper, m_out: Mapper|
            {
                &&& with_inner_pre(m0, tf, tinyavail, m_in)
                &&& #[trigger] call_ensures(f, (m_in, (requests, allocator)), (m_out, aux_out))
                &&& forall|q: u64|
                    #![trigger translate_page_spec(active_table.phys(), tf, q)]
                    p4_field(q) != 511 && canonical_index(q as int) ==> translate_page_spec(
                        active_table.phys(),
                        tf,
                        q,
                    ) == translate_page_spec(m_out.phys(), tf, q)
                &&& forall|q: u64|
                    #![trigger leaf_entry(active_table.phys(), tf, q)]
                    p4_field(q) != 511 ==> leaf_entry(active_table.phys(), tf, q) == leaf_entry(
                        m_out.phys(),
                        tf,
                        q,
                    ) && no_huge_on_path(active_table.phys(), tf, q) == no_huge_on_path(
                        m_out.phys(),
                        tf,
                        q,
                    )
            };
        let mfin = active_table.phys();
        assert(m_out.root() == tf);
        assert(mfin.is_root(tf)) by {
            assert(m0@.contains_key(tf) && m0.lvl(tf) == 4);
        }
        assert forall|i: int| 0 <= i < reqs.len() implies translate_page_spec(
            mfin,
            tf,
            (#[trigger] reqs[i]).page@,
        ) == Some(reqs[i].frame@) && entry_present(leaf_entry(mfin, tf, reqs[i].page@))
            && l1_table(mfin, tf, reqs[i].page@) is Some by {
            assert(canonical_index(reqs[i].page@ as int));
            assert(p4_field(reqs[i].page@) != 511);
            assert(translate_page_spec(m_out.phys(), tf, reqs[i].page@) == Some(reqs[i].frame@));
            assert(translate_page_spec(mfin, tf, reqs[i].page@) == translate_page_spec(
                m_out.phys(),
                tf,
                reqs[i].page@,
            ));
            assert(leaf_entry(mfin, tf, reqs[i].page@) == leaf_entry(
                m_out.phys(),
                tf,
                reqs[i].page@,
            ));
            crate::paging::entry::lemma_zero_entry();
        }
    }
    aux_out.1
}

/// Every request page is canonical: each is a `Page` value.
pub fn note_requests_canonical(requests: &Vec<MapRequest>)
    ensures
        forall|i: int|
            0 <= i < requests@.len() ==> canonical_index(
                (#[trigger] requests@[i]).page@ as int,
            ),
{
    let mut i: usize = 0;
    while i < requests.len()
        invariant
            i <= requests@.len(),
            forall|k: int|
                0 <= k < i ==> canonical_index((#[trigger] requests@[k]).page@ as int),
        decreases requests@.len() - i,
    {
        let p = requests[i].page;
        proof {
            use_type_invariant(&p);
            crate::paging::page::lemma_page_canonical(p);
        }
        i = i + 1;
    }
}

proof fn lemma_or_one_controller(a: u64)
    ensures
        (a | 1) & 1 == 1,
        a | 1 != 0,
{
    assert((a | 1) & 1 == 1 && (a | 1) != 0) by (bit_vector);
}



/// Trees rooted elsewhere read exactly as at the start.
#[verifier::opaque]
pub open spec fn foreign_trees_ok(
    mstart: crate::paging::phys_mem::PhysMem,
    mnow: crate::paging::phys_mem::PhysMem,
    root: u64,
) -> bool {
    &&& forall|r2: u64, q: u64|
        #![trigger l1_table(mnow, r2, q)]
        #![trigger leaf_entry(mnow, r2, q)]
        mstart.is_root(r2) && r2 != root && p4_field(q) != 511 ==> l1_table(mnow, r2, q)
            == l1_table(mstart, r2, q) && leaf_entry(mnow, r2, q) == leaf_entry(mstart, r2, q)
            && no_huge_on_path(mnow, r2, q) == no_huge_on_path(mstart, r2, q)
    &&& forall|r2: u64, q: u64|
        #![trigger translate_page_spec(mnow, r2, q)]
        mstart.is_root(r2) && r2 != root && p4_field(q) != 511 && canonical_index(q as int)
            ==> translate_page_spec(mnow, r2, q) == translate_page_spec(mstart, r2, q)
}

/// Map every request into the tree the mapper is rooted at; the workhorse
/// that runs inside the scratch-window protocol.
#[verifier::rlimit(100)]
#[verifier::spinoff_prover]
fn apply_requests<A: FrameAllocator>(m: Mapper, aux: (Vec<MapRequest>, A)) -> (out: (
    Mapper,
    (Vec<MapRequest>, A),
))
    requires
        m.wf(),
        forall|q: u64| #![trigger p4_field(q)]
            p4_field(q) != 511 ==> l3_table(m.phys(), m.root(), q) is None && leaf_entry(
                m.phys(),
                m.root(),
                q,
            ) == 0 && no_huge_on_path(m.phys(), m.root(), q),
        requests_wf(aux.0@),
        aux.1.can_supply((3 * aux.0@.len()) as nat),
        aux.1.avail().disjoint(m.phys()@.dom()),
    ensures
        out.0.wf(),
        out.0.root() == m.root(),
        out.1.0@ == aux.0@,
        forall|g: u64| #[trigger]
            m.phys()@.contains_key(g) ==> out.0.phys()@.contains_key(g) && out.0.phys().lvl(g)
                == m.phys().lvl(g),
        forall|i: int|
            0 <= i < aux.0@.len() ==> translate_page_spec(
                out.0.phys(),
                out.0.root(),
                (#[trigger] aux.0@[i]).page@,
            ) == Some(aux.0@[i].frame@) && entry_present(
                leaf_entry(out.0.phys(), out.0.root(), aux.0@[i].page@),
            ) && l1_table(out.0.phys(), out.0.root(), aux.0@[i].page@) is Some,
        forall|r2: u64, q: u64|
            #![trigger l1_table(out.0.phys(), r2, q)]
            #![trigger leaf_entry(out.0.phys(), r2, q)]
            m.phys().is_root(r2) && r2 != m.root() && p4_field(q) != 511 ==> l1_table(
                out.0.phys(),
                r2,
                q,
            ) == l1_table(m.phys(), r2, q) && leaf_entry(out.0.phys(), r2, q) == leaf_entry(
                m.phys(),
                r2,
                q,
            ),
        forall|r2: u64, q: u64|
            #![trigger translate_page_spec(out.0.phys(), r2, q)]
            m.phys().is_root(r2) && r2 != m.root() && p4_field(q) != 511 && canonical_index(
                q as int,
            ) ==> translate_page_spec(out.0.phys(), r2, q) == translate_page_spec(m.phys(), r2, q),
        {
            let (requests_inner, mut alloc_inner) = aux;
            let mut mapper = m;
            let ghost root = mapper.root();
            let ghost mstart = mapper.phys();
            let mut i: usize = 0;
            proof {
                reveal(foreign_trees_ok);
                assert(foreign_trees_ok(mstart, mapper.phys(), root));
            }
            while i < requests_inner.len()
                invariant
                    i <= requests_inner@.len(),
                    requests_wf(requests_inner@),
                    mapper.wf(),
                    mapper.root() == root,
                    alloc_inner.can_supply((3 * (requests_inner@.len() - i)) as nat),
                    alloc_inner.avail().disjoint(mapper.phys()@.dom()),
                    forall|g: u64| #[trigger]
                        mstart@.contains_key(g) ==> mapper.phys()@.contains_key(g)
                            && mapper.phys().lvl(g) == mstart.lvl(g),
                    forall|k: int|
                        0 <= k < i ==> translate_page_spec(
                            mapper.phys(),
                            root,
                            (#[trigger] requests_inner@[k]).page@,
                        ) == Some(requests_inner@[k].frame@) && entry_present(
                            leaf_entry(mapper.phys(), root, requests_inner@[k].page@),
                        ) && l1_table(mapper.phys(), root, requests_inner@[k].page@) is Some,
                    forall|k: int|
                        i <= k < requests_inner@.len() ==> leaf_entry(
                            mapper.phys(),
                            root,
                            (#[trigger] requests_inner@[k]).page@,
                        ) == 0 && no_huge_on_path(mapper.phys(), root, requests_inner@[k].page@),
                    foreign_trees_ok(mstart, mapper.phys(), root),
                decreases requests_inner@.len() - i,
            {
                let req_page = requests_inner[i].page;
                let req_frame = requests_inner[i].frame;
                let req_flags = requests_inner[i].flags;
                proof {
                    use_type_invariant(&req_page);
                    crate::paging::page::lemma_page_canonical(req_page);
                    assert(leaf_entry(mapper.phys(), root, req_page@) == 0);
                    alloc_inner.lemma_can_supply_weaken(
                        (3 * (requests_inner@.len() - i)) as nat,
                        missing_tables(mapper.phys(), root, req_page@),
                    );
                }
                let ghost mpre = mapper.phys();
                let ghost apre = alloc_inner;
                mapper.map_to(req_page, req_frame, req_flags, &mut alloc_inner);
                i = i + 1;
                proof {
                    assert(alloc_inner.can_supply((3 * (requests_inner@.len() - i)) as nat)) by {
                        assert(apre.can_supply(
                            ((3 * (requests_inner@.len() - i)) as nat + 3) as nat,
                        ));
                    }
                    assert(flags_wf(1)) by {
                        assert(1u64 & !0x8000_0000_0000_01ff == 0) by (bit_vector);
                    }
                    crate::paging::entry::lemma_flags_or(req_flags@, 1);
                    crate::paging::entry::lemma_entry_unpack(req_frame@, (req_flags@ | 1) as u64);
                    lemma_or_one_controller(req_flags@);
                    assert forall|k: int| i <= k < requests_inner@.len() implies leaf_entry(
                        mapper.phys(),
                        root,
                        (#[trigger] requests_inner@[k]).page@,
                    ) == 0 && no_huge_on_path(mapper.phys(), root, requests_inner@[k].page@) by {
                        assert(requests_inner@[k].page@ != req_page@);
                        assert(translate_page_spec(mapper.phys(), root, requests_inner@[k].page@)
                            == translate_page_spec(mpre, root, requests_inner@[k].page@));
                        assert(leaf_entry(mapper.phys(), root, requests_inner@[k].page@)
                            == leaf_entry(mpre, root, requests_inner@[k].page@));
                    }
                    assert(foreign_trees_ok(mstart, mapper.phys(), root)) by {
                        reveal(foreign_trees_ok);
                        assert forall|r2: u64, q: u64|
                            #![trigger l1_table(mapper.phys(), r2, q)]
                            #![trigger leaf_entry(mapper.phys(), r2, q)]
                            mstart.is_root(r2) && r2 != root && p4_field(q) != 511 implies
                            l1_table(mapper.phys(), r2, q) == l1_table(mstart, r2, q)
                            && leaf_entry(mapper.phys(), r2, q) == leaf_entry(mstart, r2, q)
                            && no_huge_on_path(mapper.phys(), r2, q) == no_huge_on_path(
                            mstart,
                            r2,
                            q,
                        ) by {
                            assert(mpre.is_root(r2));
                            assert(l1_table(mpre, r2, q) == l1_table(mstart, r2, q));
                            assert(l1_table(mapper.phys(), r2, q) == l1_table(mpre, r2, q));
                        }
                        assert forall|r2: u64, q: u64|
                            #![trigger translate_page_spec(mapper.phys(), r2, q)]
                            mstart.is_root(r2) && r2 != root && p4_field(q) != 511
                                && canonical_index(q as int) implies translate_page_spec(
                            mapper.phys(),
                            r2,
                            q,
                        ) == translate_page_spec(mstart, r2, q) by {
                            assert(mpre.is_root(r2));
                            assert(translate_page_spec(mpre, r2, q) == translate_page_spec(
                                mstart,
                                r2,
                                q,
                            ));
                            assert(translate_page_spec(mapper.phys(), r2, q)
                                == translate_page_spec(mpre, r2, q));
                        }
                    }
                    assert forall|k: int| 0 <= k < i implies translate_page_spec(
                        mapper.phys(),
                        root,
                        (#[trigger] requests_inner@[k]).page@,
                    ) == Some(requests_inner@[k].frame@) && entry_present(
                        leaf_entry(mapper.phys(), root, requests_inner@[k].page@),
                    ) && l1_table(mapper.phys(), root, requests_inner@[k].page@) is Some by {
                        if k < i - 1 {
                            assert(requests_inner@[k].page@ != req_page@);
                            assert(translate_page_spec(
                                mapper.phys(),
                                root,
                                requests_inner@[k].page@,
                            ) == translate_page_spec(mpre, root, requests_inner@[k].page@));
                            assert(leaf_entry(mapper.phys(), root, requests_inner@[k].page@)
                                == leaf_entry(mpre, root, requests_inner@[k].page@));
                            crate::paging::entry::lemma_zero_entry();
                            assert(leaf_entry(mpre, root, requests_inner@[k].page@) != 0);
                            assert(l1_table(mapper.phys(), root, requests_inner@[k].page@)
                                is Some);
                        } else {
                            crate::paging::entry::lemma_zero_entry();
                            assert(leaf_entry(mapper.phys(), root, req_page@)
                                == crate::paging::entry::make_entry(
                                req_frame@,
                                (req_flags@ | 1) as u64,
                            ));
                            assert(entry_present(
                                leaf_entry(mapper.phys(), root, req_page@),
                            ));
                            assert(leaf_entry(mapper.phys(), root, req_page@) != 0);
                            assert(l1_table(mapper.phys(), root, req_page@) is Some);
                        }
                    }
                }
            }
            proof {
                reveal(foreign_trees_ok);
            }
            (mapper, (requests_inner, alloc_inner))
}

/// Exposed to kernel setup: the live address space, the frame supply, and
/// the stack carving that together manage memory after initialization.
pub struct MemoryController {
    active_table: ActivePageTable,
    frame_allocator: AreaFrameAllocator<VecFrameSet>,
    stack_allocator: StackAllocator,
}

impl MemoryController {
    /// The live address space.
    pub closed spec fn active_spec(&self) -> ActivePageTable {
        self.active_table
    }

    /// The frame supply.
    pub closed spec fn allocator_spec(&self) -> AreaFrameAllocator<VecFrameSet> {
        self.frame_allocator
    }

    /// The stack range not yet carved up.
    pub closed spec fn stacks_spec(&self) -> StackAllocator {
        self.stack_allocator
    }

    /// Carve a kernel stack of the given number of pages out of the stack
    /// region, behind a fresh guard page.
    pub fn alloc_stack(&mut self, size_in_pages: usize) -> (r: Option<Stack>)
        requires
            old(self).active_spec().wf(),
            forall|k: int|
                0 <= k < old(self).stacks_spec().remaining().len() ==> {
                    &&& p4_field(old(self).stacks_spec().remaining()[k] as u64) != 511
                    &&& old(self).stacks_spec().remaining()[k] < 0xFFFFFFFFFFFFF
                    &&& leaf_unused(
                        old(self).active_spec().phys(),
                        old(self).active_spec().root(),
                        old(self).stacks_spec().remaining()[k] as u64,
                    )
                    &&& no_huge_on_path(
                        old(self).active_spec().phys(),
                        old(self).active_spec().root(),
                        old(self).stacks_spec().remaining()[k] as u64,
                    )
                },
            old(self).allocator_spec().can_supply((4 * size_in_pages) as nat),
            old(self).allocator_spec().avail().disjoint(old(self).active_spec().phys()@.dom()),
        ensures
            final(self).active_spec().wf(),
            final(self).active_spec().root() == old(self).active_spec().root(),
            r is Some ==> {
                &&& size_in_pages > 0
                &&& r.unwrap().bottom_spec() == old(self).stacks_spec().remaining()[1] * 4096
                &&& r.unwrap().top_spec() == r.unwrap().bottom_spec() + size_in_pages * 4096
                &&& forall|k: int|
                    1 <= k <= size_in_pages ==> translate_page_spec(
                        final(self).active_spec().phys(),
                        final(self).active_spec().root(),
                        #[trigger] old(self).stacks_spec().remaining()[k] as u64,
                    ) is Some
                &&& final(self).stacks_spec().remaining() == old(
                    self,
                ).stacks_spec().remaining().skip(size_in_pages + 1)
            },
            r is None ==> (size_in_pages == 0 || old(self).stacks_spec().remaining().len()
                < size_in_pages + 1) && final(self).stacks_spec().remaining() == old(
                self,
            ).stacks_spec().remaining() && final(self).active_spec().phys() == old(
                self,
            ).active_spec().phys(),
    {
        self.stack_allocator.allocate(
            &mut self.active_table,
            &mut self.frame_allocator,
            size_in_pages,
        )
    }
}

/// Initialize memory management: populate the prepared fresh address space
/// with `requests` through the scratch-window protocol, switch to it, unmap
/// the page where the old top-level table sat so that a guard page is left
/// behind, and hand back the controller. The first request must identity
/// map the old top-level frame, so the guard can be carved out of it.
pub fn init(
    active_table: ActivePageTable,
    table: InactivePageTable,
    temp_page: TemporaryPage,
    requests: Vec<MapRequest>,
    frame_allocator: AreaFrameAllocator<VecFrameSet>,
    stack_allocator: StackAllocator,
) -> (r: MemoryController)
    requires
        active_table.wf(),
        active_table.root() < MAX_ENTRY_FRAME,
        active_table.phys().is_root(table.frame_spec()),
        table.frame_spec() != active_table.root(),
        table.frame_spec() < MAX_ENTRY_FRAME,
        forall|q: u64| #![trigger p4_field(q)]
            p4_field(q) != 511 ==> l3_table(active_table.phys(), table.frame_spec(), q) is None
                && leaf_entry(active_table.phys(), table.frame_spec(), q) == 0
                && no_huge_on_path(active_table.phys(), table.frame_spec(), q),
        p4_field(temp_page.page_spec()) != 511,
        translate_page_spec(
            active_table.phys(),
            active_table.root(),
            temp_page.page_spec(),
        ) is None,
        leaf_unused(active_table.phys(), active_table.root(), temp_page.page_spec()),
        no_huge_on_path(active_table.phys(), active_table.root(), temp_page.page_spec()),
        temp_page.allocator().can_supply(
            missing_tables(active_table.phys(), active_table.root(), temp_page.page_spec()),
        ),
        missing_tables(active_table.phys(), active_table.root(), temp_page.page_spec()) > 0
            ==> temp_page.allocator().avail().disjoint(active_table.phys()@.dom()),
        missing_tables(active_table.phys(), active_table.root(), temp_page.page_spec()) == 0
            ==> temp_page.allocator().can_release(active_table.root()),
        !temp_page.allocator().avail().contains(active_table.root()),
        requests_wf(requests@),
        frame_allocator.can_supply((3 * requests@.len()) as nat),
        frame_allocator.avail().disjoint(active_table.phys()@.dom()),
        frame_allocator.avail().disjoint(temp_page.allocator().avail()),
        // the first request puts the old top-level frame back at its own
        // address, so it can be unmapped into a guard page after the switch
        requests@.len() > 0,
        requests@[0].page@ == active_table.root(),
        temp_page.page_spec() != requests@[0].page@,
    ensures
        r.active_spec().wf(),
        r.active_spec().root() == table.frame_spec(),
        // the old top-level table's page faults from now on: a guard page
        translate_page_spec(
            r.active_spec().phys(),
            r.active_spec().root(),
            active_table.root(),
        ) is None,
        // every other request is live in the new space
        forall|i: int|
            1 <= i < requests@.len() ==> translate_page_spec(
                r.active_spec().phys(),
                r.active_spec().root(),
                (#[trigger] requests@[i]).page@,
            ) == Some(requests@[i].frame@),
{
    let mut active_table = active_table;
    let mut table = table;
    let mut temp_page = temp_page;
    let ghost m0 = active_table.phys();
    let ghost r0 = active_table.root();
    let ghost tf = table.frame_spec();
    let ghost reqs = requests@;
    let guard_page = requests[0].page;
    let frame_allocator = populate_with(
        &mut active_table,
        &mut table,
        &mut temp_page,
        requests,
        frame_allocator,
    );
    let old_table = active_table.switch(table);
    proof {
        use_type_invariant(&guard_page);
        crate::paging::page::lemma_page_canonical(guard_page);
        crate::paging::entry::lemma_zero_entry();
        assert(entry_present(leaf_entry(active_table.phys(), tf, reqs[0].page@)));
        assert(l1_table(active_table.phys(), tf, reqs[0].page@) is Some);
    }
    // leave a guard page where the old top-level table was reachable
    let mut nop = crate::frame_allocator::nop_allocator::NopAllocator;
    let _freed = active_table.mapper().unmap(guard_page, &mut nop);
    proof {
        assert forall|i: int| 1 <= i < reqs.len() implies translate_page_spec(
            active_table.phys(),
            tf,
            (#[trigger] reqs[i]).page@,
        ) == Some(reqs[i].frame@) by {
            assert(reqs[i].page@ != reqs[0].page@);
            assert(canonical_index(reqs[i].page@ as int));
            assert(translate_page_spec(active_table.phys(), tf, reqs[i].page@)
                == Some(reqs[i].frame@));
        }
    }
    MemoryController { active_table, frame_allocator, stack_allocator }
}

} // verus!
