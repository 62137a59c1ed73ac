use kernel_memory::memory::area_frame_allocator::{are_all_valid, AreaFrameAllocator, MemoryArea};
use kernel_memory::memory::paging::entry::{
    ElfSection, PageEntry, PageEntryFlags, ELF_SECTION_ALLOCATED, ELF_SECTION_EXECUTABLE,
    ELF_SECTION_WRITABLE, NO_EXECUTE, PRESENT, WRITABLE,
};
use kernel_memory::memory::paging::machine::Machine;
use kernel_memory::memory::paging::mapper::Mapper;
use kernel_memory::memory::paging::remap::KernelImage;
use kernel_memory::memory::paging::temporary_page::TemporaryPage;
use kernel_memory::memory::stack_allocator::StackAllocator;
use kernel_memory::memory::paging::{
    try_remap_the_kernel, ActivePageTable, InactivePageTable, Page, TableEdit,
};
use kernel_memory::memory::{sections_have_extent, try_init, Frame, FrameAllocator};
use kernel_memory::{HEAP_SIZE, HEAP_START};

fn a_frame(number: u64) -> Frame {
    Frame::from_number(number).unwrap()
}

fn a_word(number: u64, bits: u64) -> u64 {
    let mut entry = PageEntry(0);
    entry.set(a_frame(number), PageEntryFlags::from_bits_truncate(bits));
    entry.0
}

fn a_page(number: u64) -> Page {
    Page::from_number(number).unwrap()
}

fn writable() -> PageEntryFlags {
    PageEntryFlags::from_bits_truncate(WRITABLE)
}

/// A machine whose level-4 table, at frame `at`, has its recursive entry.
fn a_machine(at: u64) -> Machine {
    let mut machine = Machine::new(a_frame(at));
    machine.write(&a_frame(at), 511, a_word(at, PRESENT | WRITABLE));
    machine
}

fn an_image() -> KernelImage {
    KernelImage {
        sections: vec![
            ElfSection { addr: 0, size: 0x200, flags: 0 },
            ElfSection {
                addr: 0x100000,
                size: 0x3000,
                flags: ELF_SECTION_ALLOCATED | ELF_SECTION_EXECUTABLE,
            },
            ElfSection { addr: 0x103000, size: 0x2000, flags: ELF_SECTION_ALLOCATED },
            ElfSection {
                addr: 0x105000,
                size: 0x8000,
                flags: ELF_SECTION_ALLOCATED | ELF_SECTION_WRITABLE,
            },
        ],
        boot_info_start: 0x9500,
        boot_info_end: 0x9a00,
    }
}

fn some_areas() -> Vec<MemoryArea> {
    vec![
        MemoryArea { base_addr: 0, length: 0x9fc00 },
        MemoryArea { base_addr: 0x100000, length: 0x7ee0000 },
    ]
}

fn some_frames() -> AreaFrameAllocator {
    let areas = vec![MemoryArea { base_addr: 0x200000, length: 0x100000 }];
    AreaFrameAllocator::new(0x100000, 0x100fff, 0x101000, 0x101fff, areas)
}

fn no_frames() -> AreaFrameAllocator {
    AreaFrameAllocator::new(0x100000, 0x100fff, 0x101000, 0x101fff, Vec::new())
}

/// The word of the entry that maps `page` in its level-1 table.
fn leaf(mapper: &Mapper, page: Page) -> u64 {
    let p1 = mapper.p1_table_frame(page).unwrap();
    mapper.machine().read(&p1, page.p1_index())
}

#[test]
fn try_init_sets_the_memory_up() {
    let controller = try_init(a_machine(0x105), some_areas(), an_image()).unwrap();
    let mapper = controller.active_table().mapper();
    assert_eq!(mapper.machine().table_base().number(), 3);
    assert_eq!(mapper.translate(0x100000), Some(0x100000));
    assert_eq!(mapper.translate(0x105000), None);
    assert!(mapper.translate(HEAP_START as u64).is_some());
    assert!(mapper.translate((HEAP_START + HEAP_SIZE - 1) as u64).is_some());
    assert!(mapper.translate((HEAP_START + HEAP_SIZE) as u64).is_none());
}

#[test]
fn set_up_pages_carry_the_flags_of_their_part() {
    let mut controller = try_init(a_machine(0x105), some_areas(), an_image()).unwrap();
    {
        let mapper = controller.active_table().mapper();
        // Code may run and is read-only, data may not run.
        assert_eq!(leaf(mapper, a_page(0x100)), a_word(0x100, PRESENT));
        assert_eq!(leaf(mapper, a_page(0x104)), a_word(0x104, PRESENT | NO_EXECUTE));
        assert_eq!(leaf(mapper, a_page(0x10c)), a_word(0x10c, PRESENT | WRITABLE | NO_EXECUTE));
        // The boot information is present and no more, the screen writable.
        assert_eq!(leaf(mapper, a_page(9)), a_word(9, PRESENT));
        assert_eq!(leaf(mapper, a_page(0xb8)), a_word(0xb8, PRESENT | WRITABLE));
        // Every page of the heap is writable.
        for page in 0x40000..0x40000 + 25u64 {
            let word = leaf(mapper, a_page(page));
            assert_eq!(PageEntry(word).flags().bits(), PRESENT | WRITABLE);
        }
    }
    // So is every page of a stack, and the entries of the heap stay.
    let before = leaf(controller.active_table().mapper(), a_page(0x40018));
    let stack = controller.alloc_stack(2).unwrap();
    let mapper = controller.active_table().mapper();
    for address in [stack.bottom(), stack.top() - 4096] {
        let word = leaf(mapper, Page::containing_address(address));
        assert_eq!(PageEntry(word).flags().bits(), PRESENT | WRITABLE);
    }
    assert_eq!(leaf(mapper, a_page(0x40018)), before);
    assert_eq!(leaf(mapper, a_page(0x100)), a_word(0x100, PRESENT));
}

#[test]
fn try_init_fails_where_the_frames_run_out() {
    // Four frames: three for the temporary page, one for the new table.
    let areas = vec![MemoryArea { base_addr: 0, length: 0x4000 }];
    assert!(try_init(a_machine(0x105), areas, an_image()).is_none());
    // No frame at all.
    assert!(try_init(a_machine(0x105), Vec::new(), an_image()).is_none());
    // Frames for the kernel's hierarchy, and none for the heap.
    let areas = vec![MemoryArea { base_addr: 0, length: 0x7000 }];
    assert!(try_init(a_machine(0x105), areas, an_image()).is_none());
}

#[test]
fn try_init_refuses_what_is_malformed() {
    // An area without a byte, and one that ends behind the address space.
    let areas = vec![MemoryArea { base_addr: 0x1000, length: 0 }];
    assert!(try_init(a_machine(0x105), areas, an_image()).is_none());
    let areas = vec![MemoryArea { base_addr: u64::MAX, length: 2 }];
    assert!(try_init(a_machine(0x105), areas, an_image()).is_none());
    // An image without a loaded section.
    let image = KernelImage {
        sections: vec![ElfSection { addr: 0, size: 0x200, flags: 0 }],
        boot_info_start: 0x9500,
        boot_info_end: 0x9a00,
    };
    assert!(try_init(a_machine(0x105), some_areas(), image).is_none());
    // A loaded section that does not start at a page boundary.
    let image = KernelImage {
        sections: vec![ElfSection { addr: 0x100800, size: 0x200, flags: ELF_SECTION_ALLOCATED }],
        boot_info_start: 0x9500,
        boot_info_end: 0x9a00,
    };
    assert!(try_init(a_machine(0x105), some_areas(), image).is_none());
    // A level-4 table without its recursive entry.
    let bare = Machine::new(a_frame(0x105));
    assert!(try_init(bare, some_areas(), an_image()).is_none());
}

#[test]
fn areas_and_extent_are_tested() {
    assert!(are_all_valid(&some_areas()));
    assert!(are_all_valid(&Vec::new()));
    assert!(!are_all_valid(&vec![MemoryArea { base_addr: 0, length: 0 }]));
    assert!(are_all_valid(&vec![MemoryArea { base_addr: u64::MAX, length: 1 }]));
    assert!(!are_all_valid(&vec![MemoryArea { base_addr: u64::MAX, length: 2 }]));
    assert!(sections_have_extent(&an_image().sections));
    assert!(!sections_have_extent(&Vec::new()));
    assert!(!sections_have_extent(&vec![ElfSection { addr: 0, size: 1, flags: 0 }]));
    assert!(!sections_have_extent(&vec![ElfSection {
        addr: u64::MAX,
        size: 1,
        flags: ELF_SECTION_ALLOCATED,
    }]));
}

#[test]
fn try_map_to_says_when_it_cannot_map() {
    let mut mapper = Mapper::new(a_machine(0x100));
    let mut allocator = some_frames();
    let page = a_page(0x1234);
    assert!(!mapper.is_mapped(page));
    assert!(mapper.try_map_to(page, a_frame(0x5678), writable(), &mut allocator));
    assert!(mapper.is_mapped(page));
    assert_eq!(mapper.translate_page(page).unwrap().number(), 0x5678);
    // The page is taken.
    assert!(!mapper.try_map_to(page, a_frame(0x9999), writable(), &mut allocator));
    assert_eq!(mapper.translate_page(page).unwrap().number(), 0x5678);
    // The address of the frame does not fit an entry.
    assert!(!mapper.try_map_to(a_page(0x1235), a_frame(1 << 40), writable(), &mut allocator));
    assert!(!mapper.is_mapped(a_page(0x1235)));
    // No frame for a table that is missing.
    let mut empty = no_frames();
    assert!(!mapper.try_map_to(a_page(0x800_0000), a_frame(7), writable(), &mut empty));
    // The table is there: no frame is needed.
    assert!(mapper.try_map_to(a_page(0x1235), a_frame(7), writable(), &mut empty));
    // Without the recursive mapping nothing is mapped.
    let mut bare = Mapper::new(Machine::new(a_frame(0x100)));
    assert!(!bare.try_map_to(page, a_frame(7), writable(), &mut allocator));
}

#[test]
fn try_map_needs_a_frame() {
    let mut mapper = Mapper::new(a_machine(0x100));
    let mut empty = no_frames();
    assert!(!mapper.try_map(a_page(5), writable(), &mut empty));
    assert!(!mapper.is_mapped(a_page(5)));
    let mut allocator = some_frames();
    assert!(mapper.try_map(a_page(5), writable(), &mut allocator));
    assert_eq!(mapper.translate_page(a_page(5)).unwrap().number(), 0x200);
    assert_eq!(leaf(&mapper, a_page(5)), a_word(0x200, PRESENT | WRITABLE));
}

#[test]
fn try_unmap_leaves_an_unmapped_page_alone() {
    let mut mapper = Mapper::new(a_machine(0x100));
    let mut allocator = some_frames();
    assert!(!mapper.try_unmap(a_page(5), &mut allocator));
    assert!(mapper.machine().flushes().is_empty());
    assert!(mapper.try_map(a_page(5), writable(), &mut allocator));
    // The neighbour has a table, and no entry.
    assert!(!mapper.try_unmap(a_page(6), &mut allocator));
    assert!(mapper.machine().flushes().is_empty());
    assert!(mapper.try_unmap(a_page(5), &mut allocator));
    assert!(!mapper.is_mapped(a_page(5)));
    assert_eq!(mapper.machine().flushes().len(), 1);
    assert!(!mapper.try_unmap(a_page(5), &mut allocator));
}

#[test]
fn try_map_range_stops_at_a_page_that_is_taken() {
    let mut mapper = Mapper::new(a_machine(0x100));
    let mut allocator = some_frames();
    assert!(mapper.try_map(a_page(0x12), writable(), &mut allocator));
    let pages = Page::range_inclusive(a_page(0x10), a_page(0x14));
    assert!(!mapper.try_map_range(pages, writable(), &mut allocator));
    assert!(mapper.is_mapped(a_page(0x10)));
    assert!(mapper.is_mapped(a_page(0x11)));
    assert!(!mapper.is_mapped(a_page(0x13)));
    let pages = Page::range_inclusive(a_page(0x20), a_page(0x24));
    assert!(mapper.try_map_range(pages, writable(), &mut allocator));
    for number in 0x20..=0x24 {
        assert!(mapper.is_mapped(a_page(number)));
    }
}

#[test]
fn try_identity_map_needs_a_page_at_the_address_of_the_frame() {
    let mut mapper = Mapper::new(a_machine(0x100));
    let mut allocator = some_frames();
    // No page has the number of this frame: its address is not canonical.
    assert!(!mapper.try_identity_map(a_frame(1 << 35), writable(), &mut allocator));
    assert!(mapper.try_identity_map(a_frame(0xb8), writable(), &mut allocator));
    assert_eq!(mapper.translate(0xb8000), Some(0xb8000));
    let frames = Frame::range_inclusive(a_frame(0xb7), a_frame(0xb9));
    assert!(!mapper.try_identity_map_range(frames, writable(), &mut allocator));
    assert_eq!(mapper.translate(0xb7000), Some(0xb7000));
    assert_eq!(mapper.translate(0xb9000), None);
    let frames = Frame::range_inclusive(a_frame(0xc0), a_frame(0xc2));
    assert!(mapper.try_identity_map_range(frames, writable(), &mut allocator));
    assert_eq!(mapper.translate(0xc2000), Some(0xc2000));
}

#[test]
fn tables_of_a_page_are_told_apart() {
    let mut mapper = Mapper::new(a_machine(0x100));
    let mut allocator = some_frames();
    let page = a_page(0x1234);
    assert!(mapper.p1_table_frame(page).is_none());
    assert!(mapper.is_table_of(page, &a_frame(0x100)));
    assert!(!mapper.is_table_of(page, &a_frame(0x200)));
    assert!(mapper.try_map_to(page, a_frame(0x5678), writable(), &mut allocator));
    assert_eq!(mapper.p1_table_frame(page).unwrap().number(), 0x202);
    for table in [0x100, 0x200, 0x201, 0x202] {
        assert!(mapper.is_table_of(page, &a_frame(table)));
    }
    assert!(!mapper.is_table_of(page, &a_frame(0x5678)));
    assert!(!mapper.is_table_of(page, &a_frame(0x203)));
    assert!(mapper.machine().lies_on_table_path(page.start_address(), &a_frame(0x100)));
    assert!(mapper.machine().is_self_referencing());
    assert!(!Machine::new(a_frame(0x100)).is_self_referencing());
}

#[test]
fn try_new_formats_a_frame_where_it_can() {
    let mut allocator = some_frames();
    let mut active = ActivePageTable::new(a_machine(0x100));
    let mut temporary = TemporaryPage::new(a_page(0xcafebabe), &mut allocator);
    assert_eq!(temporary.reserved().number(), 0xcafebabe);
    let target = allocator.allocate_frame().unwrap();
    let table = InactivePageTable::try_new(target, &mut active, &mut temporary).unwrap();
    assert_eq!(table.p4_frame().number(), 0x203);
    let machine = active.mapper().machine();
    assert_eq!(machine.read(&a_frame(0x203), 511), a_word(0x203, PRESENT | WRITABLE));
    assert_eq!(machine.read(&a_frame(0x203), 0), 0);
    assert!(!active.mapper().is_mapped(a_page(0xcafebabe)));
    // A table of the temporary page cannot be formatted through it.
    let taken = InactivePageTable::try_new(a_frame(0x202), &mut active, &mut temporary);
    assert!(taken.is_none());
    // Nor can anything where the loaded table is not its own root.
    let mut bare = ActivePageTable::new(Machine::new(a_frame(0x100)));
    let mut other = TemporaryPage::new(a_page(0xcafebabe), &mut allocator);
    assert!(InactivePageTable::try_new(a_frame(0x300), &mut bare, &mut other).is_none());
}

struct MapTwice {
    page: Page,
}

impl TableEdit<AreaFrameAllocator> for MapTwice {
    fn run(self, mapper: &mut Mapper, allocator: &mut AreaFrameAllocator) -> bool {
        let flags = PageEntryFlags::from_bits_truncate(WRITABLE);
        mapper.try_map(self.page, flags, allocator) && mapper.try_map(self.page, flags, allocator)
    }
}

#[test]
fn try_with_says_when_the_work_could_not_be_done() {
    let mut allocator = some_frames();
    let mut active = ActivePageTable::new(a_machine(0x100));
    let mut temporary = TemporaryPage::new(a_page(0xcafebabe), &mut allocator);
    let target = allocator.allocate_frame().unwrap();
    let mut table = InactivePageTable::try_new(target, &mut active, &mut temporary).unwrap();
    let image = KernelImage {
        sections: vec![ElfSection { addr: 0x100000, size: 0x1000, flags: ELF_SECTION_ALLOCATED }],
        boot_info_start: 0x9000,
        boot_info_end: 0x9010,
    };
    assert!(active.try_with(&mut table, &mut temporary, &mut allocator, image));
    assert_eq!(
        active.mapper().machine().read(&a_frame(0x100), 511),
        a_word(0x100, PRESENT | WRITABLE)
    );
    assert!(!active.mapper().is_mapped(a_page(0x100)));
    assert!(!active.mapper().is_mapped(a_page(0xcafebabe)));
    // Work that fails half way is reported.
    let twice = MapTwice { page: a_page(0x77) };
    assert!(!active.try_with(&mut table, &mut temporary, &mut allocator, twice));
}

#[test]
fn try_remap_gives_the_machine_back_where_it_fails() {
    let mut empty = no_frames();
    let back = try_remap_the_kernel(a_machine(0x105), &mut empty, an_image());
    let machine = match back {
        Ok(_) => panic!("remapped without a frame"),
        Err(machine) => machine,
    };
    assert_eq!(machine.table_base().number(), 0x105);
    assert_eq!(machine.read(&a_frame(0x105), 511), a_word(0x105, PRESENT | WRITABLE));
    let mut allocator =
        AreaFrameAllocator::new(0x100000, 0x10d000, 0x9500, 0x9a00, some_areas());
    let active = match try_remap_the_kernel(a_machine(0x105), &mut allocator, an_image()) {
        Ok(active) => active,
        Err(_) => panic!("not remapped"),
    };
    assert_eq!(active.mapper().machine().table_base().number(), 3);
    assert_eq!(active.mapper().translate(0x105000), None);
    assert_eq!(active.mapper().translate(0x106000), Some(0x106000));
    assert_eq!(allocator.allocate_frame().unwrap().number(), 7);
}

#[test]
fn try_alloc_stack_takes_no_page_where_it_cannot_map() {
    let range = Page::range_inclusive(a_page(0x5000), a_page(0x5010));
    let mut stacks = StackAllocator::new(range);
    let mut active = ActivePageTable::new(a_machine(0x100));
    let mut empty = no_frames();
    assert!(stacks.try_alloc_stack(&mut active, &mut empty, 2).is_none());
    // No page for stacks was lost.
    let mut allocator = some_frames();
    let stack = stacks.try_alloc_stack(&mut active, &mut allocator, 2).unwrap();
    assert_eq!(stack.bottom(), 0x5001 * 4096);
    assert_eq!(stack.top(), 0x5003 * 4096);
    assert!(!active.mapper().is_mapped(a_page(0x5000)));
    assert!(active.mapper().is_mapped(a_page(0x5001)));
    assert!(active.mapper().is_mapped(a_page(0x5002)));
    assert!(!active.mapper().is_mapped(a_page(0x5003)));
    assert!(stacks.try_alloc_stack(&mut active, &mut allocator, 0).is_none());
    assert!(stacks.try_alloc_stack(&mut active, &mut allocator, 100).is_none());
    // The next stack lies above the first, behind a guard page of its own.
    let next = stacks.try_alloc_stack(&mut active, &mut allocator, 1).unwrap();
    assert_eq!(next.bottom(), 0x5004 * 4096);
    assert!(!active.mapper().is_mapped(a_page(0x5003)));
}

#[test]
fn controller_gives_stacks_where_it_can() {
    let mut controller = try_init(a_machine(0x105), some_areas(), an_image()).unwrap();
    let first = controller.try_alloc_stack(3).unwrap();
    assert_eq!(first.bottom(), 0x4001_a000);
    assert_eq!(first.top(), 0x4001_d000);
    assert!(controller.try_alloc_stack(0).is_none());
    assert!(controller.try_alloc_stack(1000).is_none());
    let second = controller.try_alloc_stack(1).unwrap();
    assert_eq!(second.bottom(), 0x4001_e000);
    let mapper = controller.active_table().mapper();
    assert!(mapper.translate(0x4001_9000).is_none());
    assert!(mapper.translate(0x4001_d000).is_none());
}
