use boot_memory::area::AREA_FREE;
use boot_memory::controller::kernel_bounds;
use boot_memory::{
    init, remap_the_kernel, ActivePageTable, AreaFrameAllocator, ElfSection, Frame,
    FrameAllocator, InitError, InitGuard, MapError, Page, PhysicalMemoryArea,
    PhysicalMemoryAreaIter, PhysicalMemoryAreas, RegistryFull, StackAllocator, PAGE_SIZE,
};

fn registry_of(areas: &[(u64, u64)]) -> PhysicalMemoryAreas {
    let mut registry = PhysicalMemoryAreas::new();
    for &(base, length) in areas {
        registry.register(PhysicalMemoryArea::free(base, length)).unwrap();
    }
    registry
}

fn section(start: usize, size: usize, writable: bool, executable: bool) -> ElfSection {
    ElfSection { start, size, allocated: true, writable, executable }
}

#[test]
fn first_frame_skips_kernel() {
    let registry = registry_of(&[(0x100000, 0x10000000 - 0x100000)]);
    let mut allocator = AreaFrameAllocator::new(0x100000, 0x200000, 0, 0, registry);
    let frame = allocator.allocate_frame().unwrap();
    assert_eq!(frame.start_address(), 0x200000);
    assert_eq!(frame.number, 0x200);
}

#[test]
fn frames_increase_and_skip_boot_metadata() {
    let registry = registry_of(&[(0, 0x10000)]);
    let mut allocator = AreaFrameAllocator::new(0x2000, 0x3000, 0x4000, 0x5001, registry);
    let mut numbers = Vec::new();
    while let Some(frame) = allocator.allocate_frame() {
        numbers.push(frame.number);
    }
    assert_eq!(numbers, vec![0, 1, 3, 6, 7, 8, 9, 10, 11, 12, 13, 14, 15]);
}

#[test]
fn frames_follow_areas_in_address_order() {
    let registry = registry_of(&[(0x10000, 0x2000), (0x1000, 0x1000), (0x5000, 0x800)]);
    let mut allocator = AreaFrameAllocator::new(0, 0, 0, 0, registry);
    let mut numbers = Vec::new();
    while let Some(frame) = allocator.allocate_frame() {
        numbers.push(frame.number);
    }
    assert_eq!(numbers, vec![1, 5, 0x10, 0x11]);
}

#[test]
fn reserved_areas_give_no_frames() {
    let mut registry = PhysicalMemoryAreas::new();
    registry
        .register(PhysicalMemoryArea { base_addr: 0, length: 0x4000, typ: 2, acpi: 0 })
        .unwrap();
    registry.register(PhysicalMemoryArea::free(0x8000, 0x1000)).unwrap();
    let mut allocator = AreaFrameAllocator::new(0, 0, 0, 0, registry);
    assert_eq!(allocator.allocate_frame().map(|f| f.number), Some(8));
    assert_eq!(allocator.allocate_frame(), None);
    assert_eq!(allocator.allocate_frame(), None);
}

#[test]
fn empty_registry_gives_no_frame() {
    let mut allocator = AreaFrameAllocator::new(0, 0, 0, 0, PhysicalMemoryAreas::new());
    assert_eq!(allocator.allocate_frame(), None);
}

#[test]
fn registry_rejects_area_beyond_capacity() {
    let mut registry = PhysicalMemoryAreas::new();
    for i in 0..512u64 {
        assert_eq!(registry.register(PhysicalMemoryArea::free(i * 0x1000, 0x1000)), Ok(()));
    }
    assert_eq!(registry.len(), 512);
    assert_eq!(registry.register(PhysicalMemoryArea::free(0, 0x1000)), Err(RegistryFull));
    assert_eq!(registry.len(), 512);
}

#[test]
fn free_area_walk_is_restartable() {
    let mut registry = PhysicalMemoryAreas::new();
    registry.register(PhysicalMemoryArea::free(0x1000, 0x1000)).unwrap();
    registry
        .register(PhysicalMemoryArea { base_addr: 0x2000, length: 0x1000, typ: 2, acpi: 0 })
        .unwrap();
    registry.register(PhysicalMemoryArea::free(0x3000, 0x1000)).unwrap();
    for _ in 0..2 {
        let mut iter = registry.free_areas();
        assert_eq!(iter.next(&registry).map(|a| a.base_addr), Some(0x1000));
        assert_eq!(iter.next(&registry).map(|a| a.base_addr), Some(0x3000));
        assert!(iter.next(&registry).is_none());
    }
    let mut fresh = PhysicalMemoryAreaIter::new();
    assert_eq!(fresh.position(), 0);
    assert!(fresh.next(&registry).unwrap().typ == AREA_FREE);
}

#[test]
fn frame_range_is_inclusive() {
    let mut iter = Frame::range_inclusive(Frame { number: 3 }, Frame { number: 5 });
    let mut numbers = Vec::new();
    while let Some(frame) = iter.next() {
        numbers.push(frame.number);
    }
    assert_eq!(numbers, vec![3, 4, 5]);
    let mut empty = Frame::range_inclusive(Frame { number: 5 }, Frame { number: 4 });
    assert!(empty.next().is_none());
    assert_eq!(Frame::containing_address(0x1fff).number, 1);
    assert_eq!(Page::containing_address(0x40100000).number, 0x40100);
}

#[test]
fn mapped_page_translates_until_unmapped() {
    let mut frames = AreaFrameAllocator::new(0, 0, 0, 0, registry_of(&[(0x100000, 0x100000)]));
    let mut table = ActivePageTable::new(Frame { number: 1 });
    let page = Page { number: 0x12345 };
    let flags = boot_memory::EntryFlags { writable: true, no_execute: true };
    table.map_to(&page, Frame { number: 0x777 }, flags, &mut frames).unwrap();
    let other = Page { number: 0x12346 };
    let other_frame = table.map(&other, flags, &mut frames).unwrap();
    assert_eq!(table.translate_page(&page), Some(Frame { number: 0x777 }));
    assert_eq!(table.translate_page(&other), Some(other_frame.clone()));
    assert_eq!(table.translate(0x12345 * PAGE_SIZE + 0x10), Some(0x777 * PAGE_SIZE + 0x10));
    assert_eq!(
        table.map_to(&page, Frame { number: 1 }, flags, &mut frames),
        Err(MapError::AlreadyMapped)
    );
    assert_eq!(table.unmap(&other), Some(other_frame));
    assert_eq!(table.translate_page(&page), Some(Frame { number: 0x777 }));
    assert_eq!(table.unmap(&page), Some(Frame { number: 0x777 }));
    assert_eq!(table.translate_page(&page), None);
    assert_eq!(table.unmap(&page), None);
}

#[test]
fn mapping_needs_a_frame_for_a_new_table() {
    let mut frames = AreaFrameAllocator::new(0, 0, 0, 0, PhysicalMemoryAreas::new());
    let mut table = ActivePageTable::new(Frame { number: 1 });
    let flags = boot_memory::EntryFlags { writable: false, no_execute: true };
    assert_eq!(
        table.map_to(&Page { number: 7 }, Frame { number: 7 }, flags, &mut frames),
        Err(MapError::OutOfFrames)
    );
    assert!(!table.is_mapped(&Page { number: 7 }));
}

#[test]
fn remap_maps_only_kernel_and_boot_metadata() {
    let mut frames = AreaFrameAllocator::new(0x100000, 0x104000, 0x200000, 0x200800, registry_of(&[(0x300000, 0x100000)]));
    let sections = vec![
        section(0x100000, 0x1000, false, true),
        section(0x101000, 0x2000, true, false),
        section(0x103000, 0x1000, true, true),
        ElfSection { start: 0x150000, size: 0x1000, allocated: false, writable: true, executable: true },
    ];
    let table = remap_the_kernel(&mut frames, &sections, 0x200000, 0x200800).unwrap();
    let text = table.lookup(&Page { number: 0x100 }).unwrap();
    assert_eq!(text.frame, 0x100);
    assert!(!text.flags.writable && !text.flags.no_execute);
    let data = table.lookup(&Page { number: 0x102 }).unwrap();
    assert!(data.flags.writable && data.flags.no_execute);
    let mixed = table.lookup(&Page { number: 0x103 }).unwrap();
    assert!(mixed.flags.writable && mixed.flags.no_execute);
    let boot = table.lookup(&Page { number: 0x200 }).unwrap();
    assert!(!boot.flags.writable && boot.flags.no_execute);
    assert!(!table.is_mapped(&Page { number: 0x104 }));
    assert!(!table.is_mapped(&Page { number: 0x150 }));
    assert!(!table.is_mapped(&Page { number: 0x201 }));
    for n in 0x0..0x400usize {
        if let Some(entry) = table.lookup(&Page { number: n }) {
            assert!(!(entry.flags.writable && !entry.flags.no_execute));
            assert_eq!(entry.frame, n);
        }
    }
}

#[test]
fn remap_fails_when_ranges_share_a_frame() {
    let mut frames = AreaFrameAllocator::new(0, 0, 0, 0, registry_of(&[(0x300000, 0x100000)]));
    let sections = vec![section(0x100000, 0x800, false, true), section(0x100800, 0x800, true, false)];
    assert_eq!(
        remap_the_kernel(&mut frames, &sections, 0, 0).err(),
        Some(MapError::AlreadyMapped)
    );
}

#[test]
fn stacks_are_guarded_and_disjoint() {
    let mut frames = AreaFrameAllocator::new(0, 0, 0, 0, registry_of(&[(0x100000, 0x100000)]));
    let mut table = ActivePageTable::new(Frame { number: 1 });
    let mut stacks = StackAllocator::new(Page { number: 0x40100 }, Page { number: 0x40100 + 100 });
    let first = stacks.alloc_stack(&mut table, &mut frames, 4).unwrap();
    assert_eq!(first.bottom(), 0x40101000);
    assert_eq!(first.top(), 0x40105000);
    assert!(!table.is_mapped(&Page { number: 0x40100 }));
    for n in 0x40101..0x40105usize {
        let entry = table.lookup(&Page { number: n }).unwrap();
        assert!(entry.flags.writable && entry.flags.no_execute);
    }
    let second = stacks.alloc_stack(&mut table, &mut frames, 4).unwrap();
    assert_eq!(second.bottom(), 0x40106000);
    assert_eq!(second.top(), 0x4010a000);
    assert!(first.top() < second.bottom());
    assert!(!table.is_mapped(&Page { number: 0x40105 }));
    assert!(!table.is_mapped(&Page { number: 0x40100 }));
}

#[test]
fn stack_requests_that_cannot_be_met() {
    let mut frames = AreaFrameAllocator::new(0, 0, 0, 0, registry_of(&[(0x100000, 0x100000)]));
    let mut table = ActivePageTable::new(Frame { number: 1 });
    let mut stacks = StackAllocator::new(Page { number: 0x40100 }, Page { number: 0x40104 });
    assert!(stacks.alloc_stack(&mut table, &mut frames, 0).is_none());
    assert!(stacks.alloc_stack(&mut table, &mut frames, 5).is_none());
    let stack = stacks.alloc_stack(&mut table, &mut frames, 4).unwrap();
    assert_eq!(stack.bottom(), 0x40101000);
    assert!(stacks.alloc_stack(&mut table, &mut frames, 1).is_none());
}

#[test]
fn stack_allocation_fails_without_frames() {
    let mut frames = AreaFrameAllocator::new(0, 0, 0, 0, registry_of(&[(0x100000, 0x2000)]));
    let mut table = ActivePageTable::new(Frame { number: 1 });
    let mut stacks = StackAllocator::new(Page { number: 0x40100 }, Page { number: 0x40200 });
    assert!(stacks.alloc_stack(&mut table, &mut frames, 4).is_none());
}

fn boot_sections() -> Vec<ElfSection> {
    vec![section(0x100000, 0x3000, false, true), section(0x103000, 0x1000, true, false)]
}

fn boot_areas() -> Vec<PhysicalMemoryArea> {
    vec![PhysicalMemoryArea::free(0, 0x9f000), PhysicalMemoryArea::free(0x100000, 0x7ee0000)]
}

#[test]
fn init_twice_is_rejected() {
    let mut guard = InitGuard::new();
    let first = init(&mut guard, &boot_areas(), &boot_sections(), 0x110000, 0x110400);
    assert!(first.is_ok());
    let second = init(&mut guard, &boot_areas(), &boot_sections(), 0x110000, 0x110400);
    assert_eq!(second.err(), Some(InitError::AlreadyCalled));
}

#[test]
fn init_maps_heap_and_hands_out_stacks() {
    let mut guard = InitGuard::new();
    let mut controller = init(&mut guard, &boot_areas(), &boot_sections(), 0x110000, 0x110400).unwrap();
    let heap = controller.lookup(&Page { number: 0x40000 }).unwrap();
    assert!(heap.flags.writable && heap.flags.no_execute);
    assert!(controller.lookup(&Page { number: 0x400ff }).is_some());
    let kernel = controller.lookup(&Page { number: 0x101 }).unwrap();
    assert_eq!(kernel.frame, 0x101);
    let stack = controller.alloc_stack(4).unwrap();
    assert_eq!(stack.bottom(), 0x40101000);
    assert_eq!(stack.top(), 0x40105000);
    assert!(controller.lookup(&Page { number: 0x40100 }).is_none());
    let next = controller.alloc_stack(4).unwrap();
    assert_eq!(next.bottom(), 0x40106000);
    assert!(controller.alloc_stack(100).is_none());
}

#[test]
fn init_reports_missing_metadata() {
    let mut guard = InitGuard::new();
    let unloaded = vec![ElfSection { start: 0x100000, size: 0x1000, allocated: false, writable: false, executable: true }];
    assert_eq!(
        init(&mut guard, &boot_areas(), &unloaded, 0, 0).err(),
        Some(InitError::MissingKernelSections)
    );
    let mut guard = InitGuard::new();
    let many: Vec<PhysicalMemoryArea> =
        (0..513u64).map(|i| PhysicalMemoryArea::free(i * 0x10000, 0x1000)).collect();
    assert_eq!(
        init(&mut guard, &many, &boot_sections(), 0, 0).err(),
        Some(InitError::TooManyAreas)
    );
    let mut guard = InitGuard::new();
    assert!(matches!(
        init(&mut guard, &Vec::new(), &boot_sections(), 0, 0).err(),
        Some(InitError::Remap(MapError::OutOfFrames))
    ));
}

#[test]
fn kernel_bounds_span_loaded_sections() {
    let mut sections = boot_sections();
    sections.push(ElfSection { start: 0x10, size: 0x10, allocated: false, writable: false, executable: false });
    assert_eq!(kernel_bounds(&sections), Some((0x100000, 0x104000)));
    assert_eq!(kernel_bounds(&Vec::new()), None);
}

#[test]
fn init_reports_kernel_over_heap() {
    let mut guard = InitGuard::new();
    let mut sections = boot_sections();
    sections.push(section(0x40000000, 0x1000, true, false));
    assert_eq!(
        init(&mut guard, &boot_areas(), &sections, 0, 0).err(),
        Some(InitError::Heap(MapError::AlreadyMapped))
    );
}

#[test]
fn init_reports_kernel_over_stack_range() {
    let mut guard = InitGuard::new();
    let mut sections = boot_sections();
    sections.push(section(0x40150000, 0x1000, true, false));
    let mut areas = boot_areas();
    areas.push(PhysicalMemoryArea::free(0x50000000, 0x1000000));
    assert_eq!(
        init(&mut guard, &areas, &sections, 0, 0).err(),
        Some(InitError::StackRangeInUse)
    );
}

#[test]
fn init_backs_heap_with_rising_free_frames() {
    let mut guard = InitGuard::new();
    let controller = init(&mut guard, &boot_areas(), &boot_sections(), 0x110000, 0x110400).unwrap();
    let mut last: Option<usize> = None;
    for n in 0x40000..=0x400ffusize {
        let entry = controller.lookup(&Page { number: n }).unwrap();
        assert!(!(0x100..0x104).contains(&entry.frame));
        assert_ne!(entry.frame, 0x110);
        if let Some(prev) = last {
            assert!(prev < entry.frame);
        }
        last = Some(entry.frame);
    }
    let boot = controller.lookup(&Page { number: 0x110 }).unwrap();
    assert!(!boot.flags.writable && boot.flags.no_execute);
    assert!(controller.lookup(&Page { number: 0x104 }).is_none());
}
