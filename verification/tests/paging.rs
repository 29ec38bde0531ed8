//! Scenario tests for frames, pages, entries, the mapper, and the
//! bootstrap protocol, run against the physical-memory model.

use osiris::frame::Frame;
use osiris::frame_allocator::FrameAllocator;
use osiris::frame_allocator::bootstrap_frame_allocator::BootstrapFrameAllocator;
use osiris::paging::active_page_table::ActivePageTable;
use osiris::paging::entry::{Entry, EntryFlags};
use osiris::paging::inactive_page_table::InactivePageTable;
use osiris::paging::mapper::Mapper;
use osiris::paging::page::Page;
use osiris::paging::table::Table;
use osiris::paging::temporary_page::{TemporaryPage, TinyAllocator};
use osiris::frame_set::FrameSet;

/// A live address space over one fresh level-4 table in the given frame.
fn fresh_active(root: u64) -> ActivePageTable {
    let mut mapper = Mapper::detached();
    mapper.install_root(Frame::new(root));
    mapper.set_root(Frame::new(root));
    let (mem, frame) = mapper.into_parts();
    ActivePageTable::new(mem, frame)
}

#[test]
fn page_index_roundtrip() {
    // index round-trip, low and high half
    for addr in [0u64, 0x1234, 0x7fff_ffff_f123, 0xffff_8000_0000_abcd] {
        let page = Page::containing_addr(addr);
        assert_eq!(page.start_addr() / 4096, addr / 4096);
    }
}

#[test]
fn page_field_recomposition() {
    // recomposing the four 9-bit fields reproduces the page index
    for addr in [0u64, 0x4000_0000, 0x7fff_ffff_f000] {
        let page = Page::containing_addr(addr);
        let p4 = page.p4_index() as u64;
        let p3 = page.p3_index() as u64;
        let p2 = page.p2_index() as u64;
        let p1 = page.p1_index() as u64;
        let recomposed = (((p4 << 9 | p3) << 9 | p2) << 9) | p1;
        assert_eq!(recomposed, addr / 4096);
    }
}

#[test]
fn map_to_then_translate_with_offsets() {
    let mut active = fresh_active(500);
    let mut alloc = BootstrapFrameAllocator::new(Frame::new(1000));
    let page = Page::containing_addr(0x4000_0000);
    let frame = Frame::new(0x77);
    active
        .mapper()
        .map_to(page, frame, EntryFlags::writable(), &mut alloc);
    for offset in [0u64, 1, 0x123, 4095] {
        assert_eq!(
            active.mapper_ref().translate(page.start_addr() + offset),
            Some(0x77 * 4096 + offset)
        );
    }
}

#[test]
fn unmap_returns_the_mapped_frame() {
    let mut active = fresh_active(500);
    let mut alloc = BootstrapFrameAllocator::new(Frame::new(1000));
    let page = Page::containing_addr(0x4000_0000);
    active
        .mapper()
        .map_to(page, Frame::new(0x99), EntryFlags::writable(), &mut alloc);
    assert!(active.mapper_ref().translate(page.start_addr()).is_some());
    let freed = active.mapper().unmap(page, &mut alloc);
    assert_eq!(freed.index(), 0x99);
    assert_eq!(active.mapper_ref().translate(page.start_addr()), None);
}

#[test]
fn map_allocates_a_fresh_frame() {
    let mut active = fresh_active(500);
    let mut alloc = BootstrapFrameAllocator::new(Frame::new(1000));
    let page = Page::containing_addr(0x1234_5000);
    active.mapper().map(page, EntryFlags::writable(), &mut alloc);
    let phys = active.mapper_ref().translate(page.start_addr()).unwrap();
    assert!(phys / 4096 >= 1000);
}

#[test]
fn identity_map_maps_address_onto_itself() {
    let mut active = fresh_active(500);
    let mut alloc = BootstrapFrameAllocator::new(Frame::new(1000));
    let frame = Frame::new(0xb8);
    active
        .mapper()
        .identity_map(frame, EntryFlags::writable(), &mut alloc);
    assert_eq!(
        active.mapper_ref().translate(0xb8 * 4096 + 0x21),
        Some(0xb8 * 4096 + 0x21)
    );
}

#[test]
fn translate_unmapped_is_none() {
    let active = fresh_active(500);
    assert_eq!(active.mapper_ref().translate(0x4000_0000), None);
}

#[test]
fn tiny_allocator_supplies_exactly_three() {
    let mut source = BootstrapFrameAllocator::new(Frame::new(2000));
    let mut tiny = TinyAllocator::new(&mut source);
    assert!(tiny.allocate().is_some());
    assert!(tiny.allocate().is_some());
    assert!(tiny.allocate().is_some());
    assert!(tiny.allocate().is_none());
}

#[test]
fn tiny_allocator_release_refills_a_slot() {
    let mut source = BootstrapFrameAllocator::new(Frame::new(2000));
    let mut tiny = TinyAllocator::new(&mut source);
    let a = tiny.allocate().unwrap();
    let b = tiny.allocate().unwrap();
    let c = tiny.allocate().unwrap();
    assert!(tiny.allocate().is_none());
    tiny.release(a);
    assert_eq!(tiny.allocate().unwrap().index(), a.index());
    let _ = (b, c);
}

#[test]
fn with_then_switch_swaps_address_spaces() {
    // one page lives only in the old space, one only in the new one
    let mut active = fresh_active(500);
    let mut alloc = BootstrapFrameAllocator::new(Frame::new(1000));
    let old_only = Page::containing_addr(0x4000_0000);
    active
        .mapper()
        .map_to(old_only, Frame::new(0x77), EntryFlags::writable(), &mut alloc);

    let scratch = Page::containing_addr(0x5000_0000);
    let mut temp = TemporaryPage::new(scratch, &mut alloc);
    let new_root = alloc.allocate().unwrap();
    let mut inactive = InactivePageTable::new(new_root, &mut active, &mut temp);

    let new_only = Page::containing_addr(0x6000_0000);
    let alloc = active.with(
        &mut inactive,
        &mut temp,
        alloc,
        |mut mapper: Mapper, mut a: BootstrapFrameAllocator| {
            mapper.map_to(new_only, Frame::new(0x88), EntryFlags::writable(), &mut a);
            (mapper, a)
        },
    );
    let _ = alloc;

    // before the switch the old space still answers
    assert!(active.mapper_ref().translate(old_only.start_addr()).is_some());
    assert_eq!(active.mapper_ref().translate(new_only.start_addr()), None);

    let old_table = active.switch(inactive);

    // after the switch the new page is live and the old one is gone
    assert_eq!(
        active.mapper_ref().translate(new_only.start_addr()),
        Some(0x88 * 4096)
    );
    assert_eq!(active.mapper_ref().translate(old_only.start_addr()), None);

    // switching back restores the old view
    let new_table = active.switch(old_table);
    assert!(active.mapper_ref().translate(old_only.start_addr()).is_some());
    let _ = new_table;
}

#[test]
fn entry_packs_frame_and_flags() {
    let mut entry = Entry::from_bits(0);
    assert!(entry.unused());
    entry.set(
        Frame::new(0x123),
        EntryFlags::present().union(EntryFlags::writable()),
    );
    assert!(!entry.unused());
    assert!(entry.flags().contains(EntryFlags::present()));
    assert!(entry.flags().contains(EntryFlags::writable()));
    assert!(!entry.flags().contains(EntryFlags::huge_page()));
    assert_eq!(entry.pointed_frame().unwrap().index(), 0x123);
    assert_eq!(entry.pointed_addr(), Some(0x123 * 4096));
    entry.set_unused();
    assert!(entry.unused());
    assert_eq!(entry.pointed_frame().map(|f| f.index()), None);
}

#[test]
fn entry_flags_from_section() {
    let code = osiris::mem_info::Section {
        name: String::from("text"),
        start_address: 0xffff_8000_0010_0000,
        offset: 0x10_0000,
        size: 0x2000,
        allocated: true,
        writable: false,
        executable: true,
    };
    let flags = EntryFlags::from_section(&code);
    assert_eq!(flags.bits(), 1);

    let data = osiris::mem_info::Section {
        name: String::from("data"),
        start_address: 0xffff_8000_0020_0000,
        offset: 0x20_0000,
        size: 0x1000,
        allocated: true,
        writable: true,
        executable: false,
    };
    let flags = EntryFlags::from_section(&data);
    assert_eq!(flags.bits(), 1 | 2 | (1 << 63));

    let unallocated = osiris::mem_info::Section {
        name: String::from("debug"),
        start_address: 0,
        offset: 0,
        size: 0x1000,
        allocated: false,
        writable: true,
        executable: true,
    };
    assert_eq!(EntryFlags::from_section(&unallocated).bits(), 0);
}

#[test]
fn table_zero_and_children() {
    let mut table = Table::new();
    assert_eq!(table.iter().len(), 512);
    assert!(table.iter().iter().all(|e| e.unused()));
    let mut entry = Entry::from_bits(0);
    entry.set(Frame::new(42), EntryFlags::present());
    table.set_entry(7, entry);
    let children = table.children();
    assert_eq!(children.len(), 1);
    assert_eq!(children[0].index(), 42);
    table.zero();
    assert!(table.children().is_empty());
}

#[test]
fn huge_page_translation() {
    // build a 2 MiB huge mapping by hand: a level-2 slot carrying the huge
    // bit translates without any level-1 table
    let mut mapper = Mapper::detached();
    mapper.install_root(Frame::new(500));
    mapper.set_root(Frame::new(500));
    let mut alloc = BootstrapFrameAllocator::new(Frame::new(1000));
    // force creation of the level-3 and level-2 tables for this address;
    // the bootstrap allocator hands out 1000, 1001, 1002 for the path
    let probe = Page::containing_addr(0x4000_0000);
    mapper.map_to(probe, Frame::new(0x77), EntryFlags::writable(), &mut alloc);
    let freed = mapper.unmap(probe, &mut alloc);
    assert_eq!(freed.index(), 0x77);
    assert_eq!(mapper.translate(0x4000_0000), None);
    // overwrite the level-2 slot (in table frame 1001) with a huge entry at
    // a 512-frame aligned base
    let huge_bits: u64 = 0x400 * 4096 | 0x81;
    let p2_slot = probe.p2_index();
    let (mut mem, root) = mapper.into_parts();
    mem.write_entry(1001, p2_slot, huge_bits);
    let mapper = Mapper::new(mem, root);
    assert_eq!(
        mapper.translate(0x4000_0000 + 5 * 4096 + 7),
        Some((0x400 + 5) * 4096 + 7)
    );
}

#[test]
fn frame_iteration_is_inclusive() {
    let mut iter = Frame::range_inclusive(Frame::new(5), Frame::new(8));
    let mut seen = Vec::new();
    while let Some(f) = iter.next() {
        seen.push(f.index());
    }
    assert_eq!(seen, vec![5, 6, 7, 8]);
}

#[test]
fn page_iteration_is_inclusive() {
    let start = Page::containing_addr(3 * 4096);
    let end = Page::containing_addr(5 * 4096);
    let mut iter = Page::range_inclusive(start, end);
    assert_eq!(iter.pages_left(), 3);
    let mut seen = Vec::new();
    while let Some(p) = iter.next() {
        seen.push(p.start_addr());
    }
    assert_eq!(seen, vec![3 * 4096, 4 * 4096, 5 * 4096]);
}

#[test]
fn root_table_is_reachable() {
    let mut active = fresh_active(500);
    let mut alloc = BootstrapFrameAllocator::new(Frame::new(1000));
    let page = Page::containing_addr(0x4000_0000);
    active
        .mapper()
        .map_to(page, Frame::new(0x77), EntryFlags::writable(), &mut alloc);
    // the root has the recursive slot plus the new child
    let children = active.mapper_ref().p4().children();
    assert_eq!(children.len(), 2);
    assert!(children.iter().any(|f| f.index() == 500));
    assert!(children.iter().any(|f| f.index() == 1000));
}

#[test]
fn recover_frames_collects_all_pointed_frames() {
    let mut active = fresh_active(500);
    let mut alloc = BootstrapFrameAllocator::new(Frame::new(1000));
    let page_a = Page::containing_addr(0x4000_0000);
    let page_b = Page::containing_addr(0x4000_1000);
    active
        .mapper()
        .map_to(page_a, Frame::new(0x77), EntryFlags::writable(), &mut alloc);
    active
        .mapper()
        .map_to(page_b, Frame::new(0x78), EntryFlags::writable(), &mut alloc);
    let recovered = active.mapper_ref().recover_frames();
    // the data frames, the table frames of the created path, and the
    // recursive slot's own frame are all pointed at by present entries
    for frame in [0x77, 0x78, 500, 1000, 1001, 1002] {
        assert!(recovered.contains(&Frame::new(frame)), "missing {frame:#x}");
    }
    assert!(!recovered.contains(&Frame::new(0x99)));
}

#[test]
fn scratch_window_can_be_mapped_again() {
    // after building an offline space, the micro-allocator has its window
    // frame back, so the window can be mapped a second time
    let mut active = fresh_active(500);
    let mut alloc = BootstrapFrameAllocator::new(Frame::new(1000));
    let scratch = Page::containing_addr(0x5000_0000);
    let mut temp = TemporaryPage::new(scratch, &mut alloc);
    let new_root = alloc.allocate().unwrap();
    let _inactive = InactivePageTable::new(new_root, &mut active, &mut temp);
    assert_eq!(active.mapper_ref().translate(scratch.start_addr()), None);
    let addr = temp.map(Frame::new(0x42), &mut active);
    assert_eq!(addr, scratch.start_addr());
    assert_eq!(
        active.mapper_ref().translate(scratch.start_addr()),
        Some(0x42 * 4096)
    );
    let freed = temp.unmap(&mut active);
    assert_eq!(freed.index(), 0x42);
    assert_eq!(active.mapper_ref().translate(scratch.start_addr()), None);
}

#[test]
fn frame_accessors() {
    let mut frame = Frame::containing_addr(0x1234_5678);
    assert_eq!(frame.index(), 0x1234_5678 / 4096);
    assert_eq!(frame.start_addr(), (0x1234_5678 / 4096) * 4096);
    frame.set_index(99);
    assert_eq!(frame.index(), 99);
}
