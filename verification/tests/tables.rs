use kernel_memory::memory::area_frame_allocator::{AreaFrameAllocator, MemoryArea};
use kernel_memory::memory::paging::entry::{
    ElfSection, PageEntry, PageEntryFlags, ELF_SECTION_ALLOCATED, ELF_SECTION_WRITABLE,
    NO_EXECUTE, PRESENT, WRITABLE,
};
use kernel_memory::memory::paging::machine::{Machine, TlbFlush};
use kernel_memory::memory::paging::mapper::Mapper;
use kernel_memory::memory::paging::remap::KernelImage;
use kernel_memory::memory::paging::table::{Level1, Level4, Table, P4_ADDRESS};
use kernel_memory::memory::paging::temporary_page::TemporaryPage;
use kernel_memory::memory::paging::{
    ActivePageTable, InactivePageTable, Page, TableEdit,
};
use kernel_memory::memory::{Frame, FrameAllocator};

fn frame(number: u64) -> Frame {
    Frame::from_number(number).unwrap()
}

fn word(number: u64, bits: u64) -> u64 {
    let mut entry = PageEntry(0);
    entry.set(frame(number), PageEntryFlags::from_bits_truncate(bits));
    entry.0
}

fn machine(at: u64) -> Machine {
    let mut machine = Machine::new(frame(at));
    machine.write(&frame(at), 511, word(at, PRESENT | WRITABLE));
    machine
}

fn allocator() -> AreaFrameAllocator {
    let areas = vec![MemoryArea { base_addr: 0x200000, length: 0x100000 }];
    AreaFrameAllocator::new(0x100000, 0x100fff, 0x101000, 0x101fff, areas)
}

fn temporary_page_number() -> Page {
    Page::from_number(0xcafebabe).unwrap()
}

#[test]
fn table_entries_through_the_recursive_mapping() {
    let mut machine = machine(0x100);
    let p4: Table<Level4> = Table::at(P4_ADDRESS);
    assert_eq!(p4.entry(&machine, 511).0, word(0x100, PRESENT | WRITABLE));
    assert!(p4.entry(&machine, 0).is_unused());
    assert!(p4.next_table(&machine, 0).is_none());
    assert!(p4.next_table_address(&machine, 0).is_none());
    assert_eq!(p4.next_table_address(&machine, 511), Some(P4_ADDRESS));
    p4.set_entry(&mut machine, 7, PageEntry(word(0x300, PRESENT)));
    assert_eq!(machine.read(&frame(0x100), 7), word(0x300, PRESENT));
    // The table that entry 7 leads to lies one level up in the address.
    assert_eq!(p4.next_table_address(&machine, 7), Some(0xffff_ffff_ffe0_7000));
    let p3 = p4.next_table(&machine, 7).unwrap();
    assert_eq!(p3.start_address(), 0xffff_ffff_ffe0_7000);
    p3.set_entry(&mut machine, 9, PageEntry(0x1234_5000 | 1));
    assert_eq!(machine.read(&frame(0x300), 9), 0x1234_5001);
    p3.zero(&mut machine);
    assert_eq!(machine.read(&frame(0x300), 9), 0);
    assert_eq!(machine.read(&frame(0x100), 7), word(0x300, PRESENT));
}

#[test]
fn next_table_create_grows_the_tree_once() {
    let mut machine = machine(0x100);
    let mut allocator = allocator();
    let p4: Table<Level4> = Table::at(P4_ADDRESS);
    // What lies in the frame before it becomes a table does not matter.
    machine.write(&frame(0x200), 3, 77);
    let p3 = p4.next_table_create(&mut machine, 5, &mut allocator);
    assert_eq!(p3.start_address(), 0xffff_ffff_ffe0_5000);
    assert_eq!(machine.read(&frame(0x100), 5), word(0x200, PRESENT | WRITABLE));
    assert_eq!(machine.read(&frame(0x200), 3), 0);
    let again = p4.next_table_create(&mut machine, 5, &mut allocator);
    assert_eq!(again.start_address(), p3.start_address());
    assert_eq!(allocator.allocate_frame().unwrap().number(), 0x201);
}

#[test]
fn temporary_page_reaches_a_frame() {
    let mut allocator = allocator();
    let mut mapper = Mapper::new(machine(0x100));
    let mut temporary = TemporaryPage::new(temporary_page_number(), &mut allocator);
    assert_eq!(allocator.allocate_frame().unwrap().number(), 0x203);
    let address = temporary.map(frame(0x250), &mut mapper);
    assert_eq!(address, 0xcafebabe000);
    assert_eq!(mapper.translate(address), Some(0x250 * 4096));
    temporary.unmap(&mut mapper);
    assert_eq!(mapper.translate(address), None);
    // The tables are there now: the page can be mapped without a frame left.
    let table: Table<Level1> = temporary.map_table_frame(frame(0x251), &mut mapper);
    table.set_entry(mapper.machine_mut(), 3, PageEntry(99));
    assert_eq!(mapper.machine().read(&frame(0x251), 3), 99);
    assert_eq!(table.entry(mapper.machine(), 3).0, 99);
    temporary.unmap(&mut mapper);
    assert_eq!(
        mapper.machine().flushes().clone(),
        vec![TlbFlush::Page(0xcafebabe000), TlbFlush::Page(0xcafebabe000)]
    );
}

#[test]
fn inactive_table_is_empty_but_for_its_recursive_entry() {
    let mut allocator = allocator();
    let mut active = ActivePageTable::new(machine(0x100));
    let mut temporary = TemporaryPage::new(temporary_page_number(), &mut allocator);
    let target = allocator.allocate_frame().unwrap();
    assert_eq!(target.number(), 0x203);
    active.mapper_mut().machine_mut().write(&frame(0x203), 17, 0xffff);
    let table = InactivePageTable::new(target, &mut active, &mut temporary);
    assert_eq!(table.p4_frame().number(), 0x203);
    let machine = active.mapper().machine();
    for index in 0..511 {
        assert_eq!(machine.read(&frame(0x203), index), 0);
    }
    assert_eq!(machine.read(&frame(0x203), 511), word(0x203, PRESENT | WRITABLE));
    assert_eq!(machine.read(&frame(0x100), 511), word(0x100, PRESENT | WRITABLE));
    assert_eq!(machine.table_base().number(), 0x100);
    assert_eq!(active.mapper().translate(0xcafebabe000), None);
}

#[test]
fn with_edits_the_inactive_table_and_restores_the_recursive_entry() {
    let mut allocator = allocator();
    let mut active = ActivePageTable::new(machine(0x100));
    let mut temporary = TemporaryPage::new(temporary_page_number(), &mut allocator);
    let target = allocator.allocate_frame().unwrap();
    let mut table = InactivePageTable::new(target, &mut active, &mut temporary);
    // The loaded hierarchy maps the page of the text screen elsewhere.
    let page = Page::from_number(0xb8).unwrap();
    active.mapper_mut().map_to(
        page,
        frame(0x7000),
        PageEntryFlags::from_bits_truncate(PRESENT),
        &mut allocator,
    );
    let slot_before = active.mapper().machine().read(&frame(0x100), 511);
    let flushes_before = active.mapper().machine().flushes().len();
    let image = KernelImage {
        sections: vec![ElfSection { addr: 0x100000, size: 0x1000, flags: ELF_SECTION_ALLOCATED }],
        boot_info_start: 0x9000,
        boot_info_end: 0x9010,
    };

    active.with(&mut table, &mut temporary, &mut allocator, image);

    let machine = active.mapper().machine();
    assert_eq!(machine.read(&frame(0x100), 511), slot_before);
    assert_eq!(machine.table_base().number(), 0x100);
    // The loaded hierarchy maps what it mapped before, and nothing more.
    assert_eq!(active.mapper().translate_page(page).unwrap().number(), 0x7000);
    assert_eq!(active.mapper().translate(0x100000), None);
    assert_eq!(active.mapper().translate(0x9000), None);
    assert_eq!(active.mapper().translate(0xcafebabe000), None);
    // Both full flushes and the invalidation of the temporary page.
    let flushes = machine.flushes().clone();
    assert_eq!(
        flushes[flushes_before..].to_vec(),
        vec![TlbFlush::All, TlbFlush::All, TlbFlush::Page(0xcafebabe000)]
    );
    // The inactive hierarchy holds the kernel image.
    let old = active.switch(table);
    assert_eq!(old.p4_frame().number(), 0x100);
    assert_eq!(active.mapper().machine().table_base().number(), 0x203);
    assert_eq!(active.mapper().translate(0xb8000), Some(0xb8000));
    assert_eq!(active.mapper().translate(0x100000), Some(0x100000));
    assert_eq!(active.mapper().translate(0x9000), Some(0x9000));
    let back = active.switch(old);
    assert_eq!(back.p4_frame().number(), 0x203);
    assert_eq!(active.mapper().translate_page(page).unwrap().number(), 0x7000);
}

#[test]
fn kernel_image_is_mapped_with_the_flags_of_its_sections() {
    let mut allocator = allocator();
    let mut mapper = Mapper::new(machine(0x100));
    let image = KernelImage {
        sections: vec![
            ElfSection { addr: 0x100000, size: 0x1800, flags: ELF_SECTION_ALLOCATED | 4 },
            ElfSection { addr: 0x500000, size: 0x1000, flags: 0 },
            ElfSection {
                addr: 0x102000,
                size: 0x1000,
                flags: ELF_SECTION_ALLOCATED | ELF_SECTION_WRITABLE,
            },
            ElfSection { addr: 0x103000, size: 0, flags: ELF_SECTION_ALLOCATED },
        ],
        boot_info_start: 0x9000,
        boot_info_end: 0x9010,
    };
    image.run(&mut mapper, &mut allocator);
    for address in [0x100000u64, 0x101fff, 0x102000, 0x9000, 0x9fff, 0xb8000] {
        assert_eq!(mapper.translate(address), Some(address));
    }
    for address in [0x500000u64, 0x103000, 0xa000, 0x8fff, 0xb9000, 0xff000] {
        assert_eq!(mapper.translate(address), None);
    }
    // Tables in 0x200 to 0x202; the level-1 table holds the leaves.
    let machine = mapper.machine();
    assert_eq!(machine.read(&frame(0x202), 0x100), word(0x100, PRESENT));
    assert_eq!(machine.read(&frame(0x202), 0x101), word(0x101, PRESENT));
    assert_eq!(machine.read(&frame(0x202), 0x102), word(0x102, PRESENT | WRITABLE | NO_EXECUTE));
    assert_eq!(machine.read(&frame(0x202), 0x9), word(0x9, PRESENT));
    assert_eq!(machine.read(&frame(0x202), 0xb8), word(0xb8, PRESENT | WRITABLE));
}

/// Work that maps one page, as a caller of the library writes it.
struct MapOnePage {
    page: Page,
    frame: Frame,
}

impl TableEdit<AreaFrameAllocator> for MapOnePage {
    fn run(self, mapper: &mut Mapper, allocator: &mut AreaFrameAllocator) -> bool {
        // While the work runs, the mapper works on the inactive hierarchy.
        assert!(mapper.translate_page(self.page).is_none());
        let number = self.frame.number();
        let mapped = mapper.try_map_to(
            self.page,
            self.frame,
            PageEntryFlags::from_bits_truncate(WRITABLE),
            allocator,
        );
        assert_eq!(mapper.translate_page(self.page).unwrap().number(), number);
        mapped
    }
}

#[test]
fn with_runs_the_work_of_the_caller() {
    let mut allocator = allocator();
    let mut active = ActivePageTable::new(machine(0x100));
    let mut temporary = TemporaryPage::new(temporary_page_number(), &mut allocator);
    let target = allocator.allocate_frame().unwrap();
    let mut table = InactivePageTable::new(target, &mut active, &mut temporary);
    let page = Page::from_number(0x1234).unwrap();
    active.mapper_mut().map_to(
        page,
        frame(0x7000),
        PageEntryFlags::from_bits_truncate(PRESENT),
        &mut allocator,
    );
    let slot_before = active.mapper().machine().read(&frame(0x100), 511);

    active.with(
        &mut table,
        &mut temporary,
        &mut allocator,
        MapOnePage { page, frame: frame(0x8000) },
    );

    assert_eq!(active.mapper().machine().read(&frame(0x100), 511), slot_before);
    assert_eq!(active.mapper().translate_page(page).unwrap().number(), 0x7000);
    let old = active.switch(table);
    assert_eq!(active.mapper().translate_page(page).unwrap().number(), 0x8000);
    active.switch(old);
    assert_eq!(active.mapper().translate_page(page).unwrap().number(), 0x7000);
}

/// An allocator over a list of frame numbers, as a caller of the library
/// writes it.
struct ListAllocator {
    numbers: Vec<u64>,
}

impl FrameAllocator for ListAllocator {
    fn allocate_frame(&mut self) -> Option<Frame> {
        if self.numbers.is_empty() {
            None
        } else {
            Frame::from_number(self.numbers.remove(0))
        }
    }

    fn deallocate_frame(&mut self, frame: Frame) {
        self.numbers.push(frame.number());
    }
}

#[test]
fn mapping_with_an_allocator_of_the_caller() {
    let mut allocator = ListAllocator { numbers: vec![0x90, 0x40, 0x77, 0x41] };
    let mut mapper = Mapper::new(machine(0x100));
    let page = Page::from_number(0x1234).unwrap();
    mapper.map(page, PageEntryFlags::from_bits_truncate(WRITABLE), &mut allocator);
    assert_eq!(mapper.translate_page(page).unwrap().number(), 0x90);
    assert_eq!(mapper.machine().read(&frame(0x100), 0), word(0x40, PRESENT | WRITABLE));
    assert_eq!(mapper.machine().read(&frame(0x40), 0), word(0x77, PRESENT | WRITABLE));
    assert_eq!(mapper.machine().read(&frame(0x77), 9), word(0x41, PRESENT | WRITABLE));
    assert!(allocator.allocate_frame().is_none());
    allocator.deallocate_frame(frame(5));
    assert_eq!(allocator.allocate_frame().unwrap().number(), 5);
}

#[test]
fn with_gives_the_recursive_entry_back_as_it_found_it() {
    for bits in [PRESENT, PRESENT | WRITABLE | NO_EXECUTE, PRESENT | 0x20 | 0x40] {
        let mut allocator = allocator();
        let mut loaded = Machine::new(frame(0x100));
        loaded.write(&frame(0x100), 511, word(0x100, bits));
        let mut active = ActivePageTable::new(loaded);
        let mut temporary = TemporaryPage::new(temporary_page_number(), &mut allocator);
        let target = allocator.allocate_frame().unwrap();
        let mut table = InactivePageTable::new(target, &mut active, &mut temporary);
        let image = KernelImage {
            sections: vec![ElfSection {
                addr: 0x100000,
                size: 0x1000,
                flags: ELF_SECTION_ALLOCATED,
            }],
            boot_info_start: 0x9000,
            boot_info_end: 0x9010,
        };
        active.with(&mut table, &mut temporary, &mut allocator, image);
        assert_eq!(active.mapper().machine().read(&frame(0x100), 511), word(0x100, bits));
        // The new table has the entry that formatting gave it.
        assert_eq!(
            active.mapper().machine().read(&frame(0x203), 511),
            word(0x203, PRESENT | WRITABLE)
        );
    }
}
