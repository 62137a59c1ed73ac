use kernel_memory::memory::area_frame_allocator::{AreaFrameAllocator, MemoryArea};
use kernel_memory::memory::paging::entry::{
    ElfSection, PageEntry, PageEntryFlags, ELF_SECTION_ALLOCATED, ELF_SECTION_EXECUTABLE,
    ELF_SECTION_WRITABLE, NO_EXECUTE, PRESENT, WRITABLE,
};
use kernel_memory::memory::paging::machine::{Machine, TlbFlush};
use kernel_memory::memory::paging::remap::KernelImage;
use kernel_memory::memory::paging::{remap_the_kernel, Page};
use kernel_memory::memory::stack_allocator::{Stack, StackAllocator};
use kernel_memory::memory::{init, kernel_extent, Frame, FrameAllocator};
use kernel_memory::{HEAP_SIZE, HEAP_START};

fn frame(number: u64) -> Frame {
    Frame::from_number(number).unwrap()
}

fn word(number: u64, bits: u64) -> u64 {
    let mut entry = PageEntry(0);
    entry.set(frame(number), PageEntryFlags::from_bits_truncate(bits));
    entry.0
}

/// The machine as the boot code leaves it: a level-4 table in the kernel
/// image, at frame 0x105, with its recursive entry.
fn booted() -> Machine {
    let mut machine = Machine::new(frame(0x105));
    machine.write(&frame(0x105), 511, word(0x105, PRESENT | WRITABLE));
    machine
}

fn image() -> KernelImage {
    KernelImage {
        sections: vec![
            ElfSection { addr: 0, size: 0x200, flags: 0 },
            ElfSection {
                addr: 0x100000,
                size: 0x3000,
                flags: ELF_SECTION_ALLOCATED | ELF_SECTION_EXECUTABLE,
            },
            ElfSection { addr: 0x103000, size: 0x2000, flags: ELF_SECTION_ALLOCATED },
            ElfSection {
                addr: 0x105000,
                size: 0x8000,
                flags: ELF_SECTION_ALLOCATED | ELF_SECTION_WRITABLE,
            },
        ],
        boot_info_start: 0x9500,
        boot_info_end: 0x9a00,
    }
}

fn areas() -> Vec<MemoryArea> {
    vec![
        MemoryArea { base_addr: 0, length: 0x9fc00 },
        MemoryArea { base_addr: 0x100000, length: 0x7ee0000 },
    ]
}

#[test]
fn extent_of_the_kernel() {
    assert_eq!(kernel_extent(&image().sections), (0x100000, 0x10d000));
}

#[test]
fn remap_gives_the_kernel_its_own_hierarchy() {
    let mut allocator = AreaFrameAllocator::new(0x100000, 0x10d000, 0x9500, 0x9a00, areas());
    let active = remap_the_kernel(booted(), &mut allocator, image());
    let mapper = active.mapper();
    // The fourth frame of the allocator is the new level-4 table.
    assert_eq!(mapper.machine().table_base().number(), 3);
    assert_eq!(mapper.machine().read(&frame(3), 511), word(3, PRESENT | WRITABLE));
    // The old table has its recursive entry back.
    assert_eq!(mapper.machine().read(&frame(0x105), 511), word(0x105, PRESENT | WRITABLE));
    for address in [0x100000u64, 0x102fff, 0x103000, 0x104fff, 0x106000, 0x10cfff, 0x9500, 0xb8000]
    {
        assert_eq!(mapper.translate(address), Some(address));
    }
    // The page of the old level-4 table is the guard page.
    assert_eq!(mapper.translate(0x105000), None);
    assert_eq!(mapper.translate(0x10d000), None);
    assert_eq!(mapper.translate(0), None);
    assert_eq!(mapper.translate(0xcafebabe000), None);
    assert_eq!(
        mapper.machine().flushes().clone(),
        vec![
            TlbFlush::Page(0xcafebabe000),
            TlbFlush::All,
            TlbFlush::All,
            TlbFlush::Page(0xcafebabe000),
            TlbFlush::Page(0x105000),
        ]
    );
    // Frames 0 to 2 for the temporary page, 3 for the table, 4 to 6 for the
    // new hierarchy.
    assert_eq!(allocator.allocate_frame().unwrap().number(), 7);
    // Code may run, data may not.
    let p1 = frame(6);
    assert_eq!(mapper.machine().read(&p1, 0x100), word(0x100, PRESENT));
    assert_eq!(mapper.machine().read(&p1, 0x103), word(0x103, PRESENT | NO_EXECUTE));
    assert_eq!(
        mapper.machine().read(&p1, 0x106),
        word(0x106, PRESENT | WRITABLE | NO_EXECUTE)
    );
    assert_eq!(mapper.machine().read(&p1, 0x105), 0);
}

#[test]
fn init_sets_up_heap_and_stacks() {
    let mut controller = init(booted(), areas(), image());
    {
        let mapper = controller.active_table().mapper();
        assert_eq!(mapper.machine().table_base().number(), 3);
        let heap_start = HEAP_START as u64;
        let heap_end = (HEAP_START + HEAP_SIZE) as u64;
        assert!(mapper.translate(heap_start).is_some());
        assert!(mapper.translate(heap_end - 1).is_some());
        assert!(mapper.translate(heap_end).is_none());
        assert!(mapper.translate(heap_start - 1).is_none());
        // No frame of the kernel, of the boot information or of a table
        // backs the heap.
        let mut seen = Vec::new();
        for page in 0..25u64 {
            let address = mapper.translate(heap_start + page * 4096).unwrap();
            let number = address / 4096;
            assert!(!(0x100..=0x10d).contains(&number));
            assert_ne!(number, 9);
            assert!(number >= 7);
            assert!(!seen.contains(&number));
            seen.push(number);
        }
    }
    // The first page behind the heap is the guard page of the first stack.
    let first = controller.alloc_stack(3).unwrap();
    assert_eq!(first.bottom(), 0x4001_a000);
    assert_eq!(first.top(), 0x4001_d000);
    assert_eq!(first.top() - first.bottom(), 3 * 4096);
    let second = controller.alloc_stack(1).unwrap();
    assert_eq!(second.bottom(), 0x4001_e000);
    assert_eq!(second.top(), 0x4001_f000);
    assert!(controller.alloc_stack(0).is_none());
    let mapper = controller.active_table().mapper();
    assert!(mapper.translate(0x4001_9000).is_none());
    assert!(mapper.translate(0x4001_a000).is_some());
    assert!(mapper.translate(0x4001_cfff).is_some());
    assert!(mapper.translate(0x4001_d000).is_none());
    assert!(mapper.translate(0x4001_e000).is_some());
    assert!(mapper.translate(0x4001_f000).is_none());
}

#[test]
fn stack_of_three_pages_on_a_fresh_range() {
    let mut allocator = AreaFrameAllocator::new(
        0x100000,
        0x100fff,
        0x101000,
        0x101fff,
        vec![MemoryArea { base_addr: 0x200000, length: 0x100000 }],
    );
    let mut machine = Machine::new(frame(0x100));
    machine.write(&frame(0x100), 511, word(0x100, PRESENT | WRITABLE));
    let mut active = kernel_memory::memory::paging::ActivePageTable::new(machine);
    let range = Page::range_inclusive(
        Page::from_number(0x1000).unwrap(),
        Page::from_number(0x1005).unwrap(),
    );
    let mut stacks = StackAllocator::new(range);
    let stack: Stack = stacks.alloc_stack(&mut active, &mut allocator, 3).unwrap();
    assert_eq!(stack.bottom(), 0x1001 * 4096);
    assert_eq!(stack.top(), 0x1004 * 4096);
    assert_eq!(stack.top() - stack.bottom(), 3 * 4096);
    // The page below the stack is not mapped.
    assert!(active.mapper().translate(0x1000 * 4096).is_none());
    assert!(active.mapper().translate(0x1000 * 4096 + 4095).is_none());
    for number in 0x1001u64..0x1004 {
        assert!(active.mapper().translate(number * 4096).is_some());
    }
    assert!(active.mapper().translate(0x1004 * 4096).is_none());
    // Two pages are left: too few for a stack of two with its guard page,
    // and nothing is taken or mapped.
    let before = allocator.allocate_frame().unwrap().number();
    assert!(stacks.alloc_stack(&mut active, &mut allocator, 2).is_none());
    assert!(stacks.alloc_stack(&mut active, &mut allocator, 0).is_none());
    assert_eq!(allocator.allocate_frame().unwrap().number(), before + 1);
    let last = stacks.alloc_stack(&mut active, &mut allocator, 1).unwrap();
    assert_eq!(last.bottom(), 0x1005 * 4096);
    assert_eq!(last.top(), 0x1006 * 4096);
    assert!(active.mapper().translate(0x1004 * 4096).is_none());
    assert!(stacks.alloc_stack(&mut active, &mut allocator, 1).is_none());
}

#[test]
fn stack_has_a_top_above_its_bottom() {
    let stack = Stack::new(0x2000, 0x1000);
    assert_eq!(stack.top(), 0x2000);
    assert_eq!(stack.bottom(), 0x1000);
}
