//! Tests for the frame allocators, the frame sets, the memory map, the bump
//! allocator, the boot-layout summary, and the top-level initialization.

use osiris::bump_allocator::{align_down, align_up, BumpAllocator};
use osiris::frame::Frame;
use osiris::frame_allocator::area_frame_allocator::AreaFrameAllocator;
use osiris::frame_allocator::bootstrap_frame_allocator::BootstrapFrameAllocator;
use osiris::frame_allocator::nop_allocator::NopAllocator;
use osiris::frame_allocator::FrameAllocator;
use osiris::frame_set::empty_set::EmptyFrameSet;
use osiris::frame_set::stack_set::{StackFrameSet, StackFrameSetError};
use osiris::frame_set::vec_set::{VecFrameSet, VecFrameSetErr};
use osiris::frame_set::{FrameSet, FrameSetMut};
use osiris::mem_info::{MemoryInfo, PhysicalArea, Section};
use osiris::memory_map::{FrameRange, MemoryMap, MemoryRegion, MemoryRegionType};
use osiris::controller::{init, MapRequest};
use osiris::paging::active_page_table::ActivePageTable;
use osiris::paging::entry::EntryFlags;
use osiris::paging::inactive_page_table::InactivePageTable;
use osiris::paging::mapper::Mapper;
use osiris::paging::page::Page;
use osiris::paging::temporary_page::TemporaryPage;
use osiris::stack_allocator::StackAllocator;

fn overlapping_map() -> MemoryMap {
    // one Usable region containing a Kernel sub-range, plus a Bootloader
    // blob and an unrelated Reserved area
    let mut map = MemoryMap::new();
    map.add_region(MemoryRegion {
        range: FrameRange::new(0x100000, 0x200000),
        region_type: MemoryRegionType::Usable,
    });
    map.add_region(MemoryRegion {
        range: FrameRange::new(0x100000, 0x108000),
        region_type: MemoryRegionType::Kernel,
    });
    map.add_region(MemoryRegion {
        range: FrameRange::new(0x180000, 0x182000),
        region_type: MemoryRegionType::Bootloader,
    });
    map.add_region(MemoryRegion {
        range: FrameRange::new(0x300000, 0x400000),
        region_type: MemoryRegionType::Reserved,
    });
    map
}

#[test]
fn area_allocator_skips_kernel_prefix() {
    // the first frame handed out sits right after the kernel image
    let mut area = AreaFrameAllocator::new(overlapping_map(), VecFrameSet::new());
    let first = area.allocate().unwrap();
    assert_eq!(first.index(), 0x108);
}

#[test]
fn area_allocator_never_returns_kernel_or_bootloader_frames() {
    let mut area = AreaFrameAllocator::new(overlapping_map(), VecFrameSet::new());
    let mut count = 0;
    while let Some(frame) = area.allocate() {
        let i = frame.index();
        assert!((0x100..0x200).contains(&i), "outside usable: {i:#x}");
        assert!(!(0x100..0x108).contains(&i), "kernel frame: {i:#x}");
        assert!(!(0x180..0x182).contains(&i), "bootloader frame: {i:#x}");
        count += 1;
    }
    // usable minus kernel minus bootloader
    assert_eq!(count, 0x100 - 8 - 2);
}

#[test]
fn area_allocator_is_monotonic_and_records() {
    let mut area = AreaFrameAllocator::new(overlapping_map(), VecFrameSet::new());
    let a = area.allocate().unwrap();
    let b = area.allocate().unwrap();
    let c = area.allocate().unwrap();
    assert!(a.index() < b.index() && b.index() < c.index());
    area.release(b);
    let next = area.allocate().unwrap();
    assert!(next.index() > c.index());
}

#[test]
fn area_allocator_set_start_frame() {
    let mut area = AreaFrameAllocator::new(overlapping_map(), VecFrameSet::new());
    area.set_start_frame(Frame::new(0x1f0));
    assert_eq!(area.allocate().unwrap().index(), 0x1f0);
    let mut area2 = AreaFrameAllocator::new(overlapping_map(), VecFrameSet::new());
    area2.set_start_frame(Frame::new(0x500));
    assert!(area2.allocate().is_none());
    assert_eq!(area2.next_free().index(), 0x500);
}

#[test]
fn bootstrap_allocator_counts_upward() {
    let mut alloc = BootstrapFrameAllocator::new(Frame::new(7));
    assert_eq!(alloc.allocate().unwrap().index(), 7);
    assert_eq!(alloc.allocate().unwrap().index(), 8);
    alloc.release(Frame::new(7));
    // release is a no-op: the counter keeps climbing
    assert_eq!(alloc.allocate().unwrap().index(), 9);
}

#[test]
fn nop_allocator_never_allocates() {
    let mut nop = NopAllocator;
    assert!(nop.allocate().is_none());
    nop.release(Frame::new(3));
    assert!(nop.allocate().is_none());
}

#[test]
fn vec_set_add_contains_remove() {
    let mut set = VecFrameSet::new();
    let f = Frame::new(12);
    assert!(!set.contains(&f));
    set.add(f).unwrap();
    assert!(set.contains(&f));
    let removed = set.remove(12).unwrap();
    assert_eq!(removed.index(), 12);
    assert!(!set.contains(&f));
}

#[test]
fn vec_set_remove_absent_fails() {
    let mut set = VecFrameSet::new();
    set.add(Frame::new(5)).unwrap();
    match set.remove(9) {
        Err(VecFrameSetErr::InvalidFrame { index }) => assert_eq!(index, 9),
        _ => panic!("expected InvalidFrame"),
    }
}

#[test]
fn stack_set_add_contains_remove() {
    let storage = vec![Frame::new(0); 4];
    let mut set = StackFrameSet::new(storage);
    set.add(Frame::new(1)).unwrap();
    set.add(Frame::new(2)).unwrap();
    set.add(Frame::new(3)).unwrap();
    assert!(set.contains(&Frame::new(2)));
    let removed = set.remove(2).unwrap();
    assert_eq!(removed.index(), 2);
    assert!(!set.contains(&Frame::new(2)));
    assert!(set.contains(&Frame::new(1)));
    assert!(set.contains(&Frame::new(3)));
}

#[test]
fn stack_set_capacity_error() {
    let storage = vec![Frame::new(0); 2];
    let mut set = StackFrameSet::new(storage);
    set.add(Frame::new(1)).unwrap();
    set.add(Frame::new(2)).unwrap();
    match set.add(Frame::new(3)) {
        Err(StackFrameSetError::Capacity) => {}
        _ => panic!("expected Capacity"),
    }
}

#[test]
fn stack_set_remove_absent_fails() {
    let storage = vec![Frame::new(0); 2];
    let mut set = StackFrameSet::new(storage);
    match set.remove(1) {
        Err(StackFrameSetError::InvalidFrame { index }) => assert_eq!(index, 1),
        _ => panic!("expected InvalidFrame"),
    }
}

#[test]
fn empty_set_accepts_and_holds_nothing() {
    let mut set = EmptyFrameSet;
    set.add(Frame::new(4)).unwrap();
    assert!(!set.contains(&Frame::new(4)));
    assert_eq!(set.remove(4).unwrap().index(), 0);
}

#[test]
fn align_helpers() {
    assert_eq!(align_down(0x1234, 0x1000), 0x1000);
    assert_eq!(align_down(0x1000, 0x1000), 0x1000);
    assert_eq!(align_down(0x1234, 0), 0x1234);
    assert_eq!(align_up(0x1234, 0x1000), 0x2000);
    assert_eq!(align_up(0x1000, 0x1000), 0x1000);
    assert_eq!(align_up(7, 2), 8);
}

#[test]
fn bump_allocator_bumps_and_refuses() {
    let mut bump = BumpAllocator::empty();
    bump.init(0x1000, 0x3000);
    let a = bump.allocate(0x800, 0x10).unwrap();
    assert_eq!(a, 0x1000);
    let b = bump.allocate(0x100, 0x1000).unwrap();
    assert_eq!(b, 0x2000);
    assert!(bump.allocate(0x1000, 0x10).is_none());
}

#[test]
fn memory_info_filters_sections() {
    let sections = vec![
        Section {
            name: String::from("boot"),
            start_address: 0x1000,
            offset: 0x1000,
            size: 0x1000,
            allocated: true,
            writable: false,
            executable: true,
        },
        Section {
            name: String::from("text"),
            start_address: 0xffff_8000_0010_0000,
            offset: 0x10_0000,
            size: 0x2000,
            allocated: true,
            writable: false,
            executable: true,
        },
        Section {
            name: String::from("empty"),
            start_address: 0x3000,
            offset: 0x3000,
            size: 0,
            allocated: true,
            writable: false,
            executable: false,
        },
        Section {
            name: String::from("debug"),
            start_address: 0x4000,
            offset: 0x4000,
            size: 0x100,
            allocated: false,
            writable: false,
            executable: false,
        },
    ];
    let areas = vec![PhysicalArea::new(0, 0x9fc00)];
    let info = MemoryInfo::from_sections(sections, areas);
    assert_eq!(info.mappings().len(), 1);
    let m = &info.mappings()[0];
    assert_eq!(m.name(), "text");
    assert_eq!(m.virt_start(), 0xffff_8000_0010_0000);
    assert_eq!(m.virt_end(), 0xffff_8000_0010_2000);
    assert_eq!(m.phys_start(), 0x10_0000);
    assert_eq!(m.phys_end(), 0x10_1fff);
    assert_eq!(m.size(), 0x2000);
    assert!(!m.identity_mapped());
    assert_eq!(info.physical_areas().len(), 1);
    assert_eq!(info.physical_areas()[0].start(), 0);
    assert_eq!(info.physical_areas()[0].end(), 0x9fbff);
    assert_eq!(info.physical_areas()[0].size(), 0x9fc00);
}

#[test]
fn frame_range_addresses() {
    let range = FrameRange::new(0x100000, 0x200000);
    assert_eq!(range.start_frame, 0x100);
    assert_eq!(range.end_frame, 0x200);
    assert_eq!(range.start_addr(), 0x100000);
    assert_eq!(range.end_addr(), 0x200000);
}

#[test]
fn init_builds_switches_and_leaves_a_guard() {
    // boot state: one level-4 table in frame 0x500
    let mut mapper = Mapper::detached();
    mapper.install_root(Frame::new(0x500));
    mapper.set_root(Frame::new(0x500));
    let (mem, root) = mapper.into_parts();
    let mut active = ActivePageTable::new(mem, root);

    // frame supply from a synthetic usable region
    let mut map = MemoryMap::new();
    map.add_region(MemoryRegion {
        range: FrameRange::new(0x100000, 0x200000),
        region_type: MemoryRegionType::Usable,
    });
    let mut area = AreaFrameAllocator::new(map, VecFrameSet::new());

    // the offline space and the scratch window
    let scratch = Page::containing_addr(0x5000_0000);
    let mut temp = TemporaryPage::new(scratch, &mut area);
    let new_root = area.allocate().unwrap();
    let inactive = InactivePageTable::new(new_root, &mut active, &mut temp);

    // the new space: the old root identity mapped (to become the guard),
    // plus one kernel page
    let kernel_page = Page::containing_addr(0xffff_8000_0010_0000);
    let requests = vec![
        MapRequest {
            page: Page::containing_addr(0x500 * 4096),
            frame: Frame::new(0x500),
            flags: EntryFlags::writable(),
        },
        MapRequest {
            page: kernel_page,
            frame: Frame::new(0x2000),
            flags: EntryFlags::writable(),
        },
    ];

    let stack_range = Page::range_inclusive(
        Page::containing_addr(0x7000_0000),
        Page::containing_addr(0x7000_0000 + 9 * 4096),
    );
    let mut controller = init(
        active,
        inactive,
        temp,
        requests,
        area,
        StackAllocator::new(stack_range),
    );

    // the kernel page is live, the old top-level table's page faults
    let stack = controller.alloc_stack(2).unwrap();
    assert_eq!(stack.top(), stack.bottom() + 2 * 4096);
    let second = controller.alloc_stack(3).unwrap();
    assert!(second.bottom() > stack.top());
    // a request larger than the range that is left is refused
    assert!(controller.alloc_stack(0).is_none());
    assert!(controller.alloc_stack(10).is_none());
}

#[test]
fn stack_allocator_returns_none_when_range_is_spent() {
    let mut mapper = Mapper::detached();
    mapper.install_root(Frame::new(0x500));
    mapper.set_root(Frame::new(0x500));
    let (mem, root) = mapper.into_parts();
    let mut active = ActivePageTable::new(mem, root);
    let mut alloc = BootstrapFrameAllocator::new(Frame::new(0x1000));

    let range = Page::range_inclusive(
        Page::containing_addr(0x7000_0000),
        Page::containing_addr(0x7000_0000 + 2 * 4096),
    );
    let mut stacks = StackAllocator::new(range);
    assert!(stacks.allocate(&mut active, &mut alloc, 0).is_none());
    let stack = stacks.allocate(&mut active, &mut alloc, 2).unwrap();
    assert_eq!(stack.top() - stack.bottom(), 2 * 4096);
    // range exhausted: three pages were spent on guard plus stack
    assert!(stacks.allocate(&mut active, &mut alloc, 1).is_none());
}
