use kernel_memory::memory::area_frame_allocator::{AreaFrameAllocator, MemoryArea};
use kernel_memory::memory::paging::entry::{
    PageEntry, PageEntryFlags, HUGE_PAGE, NO_EXECUTE, PRESENT, WRITABLE,
};
use kernel_memory::memory::paging::machine::{Machine, TlbFlush};
use kernel_memory::memory::paging::mapper::Mapper;
use kernel_memory::memory::paging::table::P4_ADDRESS;
use kernel_memory::memory::paging::{Page, PageIter};
use kernel_memory::memory::{Frame, FrameAllocator};

fn frame(number: u64) -> Frame {
    Frame::from_number(number).unwrap()
}

fn flags(bits: u64) -> PageEntryFlags {
    PageEntryFlags::from_bits_truncate(bits)
}

fn word(number: u64, bits: u64) -> u64 {
    let mut entry = PageEntry(0);
    entry.set(frame(number), flags(bits));
    entry.0
}

/// A machine whose level-4 table lies in frame `at` and points to itself.
fn machine(at: u64) -> Machine {
    Machine::with_empty_table(frame(at))
}

#[test]
fn machine_with_an_empty_table() {
    let machine = machine(0x100);
    assert_eq!(machine.table_base().number(), 0x100);
    assert_eq!(machine.read(&frame(0x100), 511), word(0x100, PRESENT | WRITABLE));
    for index in 0..511 {
        assert_eq!(machine.read(&frame(0x100), index), 0);
    }
    assert_eq!(machine.flushes().len(), 0);
}

/// Frames 0x200 to 0x2ff.
fn allocator() -> AreaFrameAllocator {
    let areas = vec![MemoryArea { base_addr: 0x200000, length: 0x100000 }];
    AreaFrameAllocator::new(0x100000, 0x100fff, 0x101000, 0x101fff, areas)
}

fn page(p4: u64, p3: u64, p2: u64, p1: u64) -> Page {
    Page::from_number((p4 << 27) | (p3 << 18) | (p2 << 9) | p1).unwrap()
}

#[test]
fn page_indices() {
    let page = page(1, 2, 3, 4);
    assert_eq!(
        (page.p4_index(), page.p3_index(), page.p2_index(), page.p1_index()),
        (1, 2, 3, 4)
    );
    let high = Page::containing_address(0xffff_ffff_ffff_f000);
    assert_eq!(
        (high.p4_index(), high.p3_index(), high.p2_index(), high.p1_index()),
        (511, 511, 511, 511)
    );
    assert_eq!(high.start_address(), P4_ADDRESS);
    assert_eq!(Page::containing_address(0xcafebabe000).number(), 0xcafebabe);
    assert!(Page::from_number(0x8_0000_0000).is_none());
    assert!(Page::from_number(0xf_fff8_0000_0000).is_some());
    assert_eq!(page.add(3).number(), page.number() + 3);
}

#[test]
fn page_ranges() {
    let mut pages: PageIter = Page::range_inclusive(page(0, 0, 0, 5), page(0, 0, 0, 9));
    assert_eq!(pages.len(), 5);
    assert_eq!(pages.next().unwrap().number(), 5);
    assert_eq!(pages.nth(0).unwrap().number(), 6);
    assert_eq!(pages.nth(1).unwrap().number(), 8);
    assert!(pages.nth(1).is_none());
    assert!(pages.next().is_none());
    assert_eq!(pages.len(), 0);
}

#[test]
fn map_then_translate_then_unmap() {
    let mut mapper = Mapper::new(machine(0x100));
    let mut allocator = allocator();
    let page = page(3, 4, 5, 6);
    assert!(mapper.translate_page(page).is_none());
    mapper.map_to(page, frame(0x5678), flags(WRITABLE), &mut allocator);
    assert_eq!(mapper.translate_page(page).unwrap().number(), 0x5678);
    assert_eq!(
        mapper.translate(page.start_address() + 0x123),
        Some(0x5678 * 4096 + 0x123)
    );
    // Three tables were created, from the first three frames.
    assert_eq!(allocator.allocate_frame().unwrap().number(), 0x203);
    let machine = mapper.machine();
    assert_eq!(machine.read(&frame(0x100), 3), word(0x200, PRESENT | WRITABLE));
    assert_eq!(machine.read(&frame(0x200), 4), word(0x201, PRESENT | WRITABLE));
    assert_eq!(machine.read(&frame(0x201), 5), word(0x202, PRESENT | WRITABLE));
    assert_eq!(machine.read(&frame(0x202), 6), word(0x5678, PRESENT | WRITABLE));
    assert_eq!(machine.read(&frame(0x202), 7), 0);

    mapper.unmap(page, &mut allocator);
    assert!(mapper.translate_page(page).is_none());
    assert_eq!(mapper.translate(page.start_address()), None);
    assert_eq!(mapper.machine().read(&frame(0x202), 6), 0);
    assert_eq!(
        mapper.machine().flushes().clone(),
        vec![TlbFlush::Page(page.start_address())]
    );
    // The tables stay, and the frame is not given back.
    assert_eq!(mapper.machine().read(&frame(0x201), 5), word(0x202, PRESENT | WRITABLE));
    assert_eq!(allocator.allocate_frame().unwrap().number(), 0x204);
}

#[test]
fn a_second_page_shares_the_tables() {
    let mut mapper = Mapper::new(machine(0x100));
    let mut allocator = allocator();
    mapper.map_to(page(3, 4, 5, 6), frame(0x1000), flags(0), &mut allocator);
    mapper.map_to(page(3, 4, 5, 7), frame(0x1001), flags(NO_EXECUTE), &mut allocator);
    mapper.map_to(page(3, 4, 6, 7), frame(0x1002), flags(WRITABLE), &mut allocator);
    assert_eq!(mapper.translate_page(page(3, 4, 5, 6)).unwrap().number(), 0x1000);
    assert_eq!(mapper.translate_page(page(3, 4, 5, 7)).unwrap().number(), 0x1001);
    assert_eq!(mapper.translate_page(page(3, 4, 6, 7)).unwrap().number(), 0x1002);
    assert!(mapper.translate_page(page(3, 4, 6, 6)).is_none());
    assert!(mapper.translate_page(page(3, 5, 5, 6)).is_none());
    // Three tables for the first page, none for the second, one for the third.
    assert_eq!(allocator.allocate_frame().unwrap().number(), 0x204);
    assert_eq!(mapper.machine().read(&frame(0x202), 7), word(0x1001, PRESENT | NO_EXECUTE));
}

#[test]
fn map_takes_the_next_frame() {
    let mut mapper = Mapper::new(machine(0x100));
    let mut allocator = allocator();
    mapper.map(page(0, 0, 1, 0), flags(WRITABLE), &mut allocator);
    mapper.map(page(0, 0, 1, 1), flags(WRITABLE), &mut allocator);
    // The frame comes first, the tables after it.
    assert_eq!(mapper.translate_page(page(0, 0, 1, 0)).unwrap().number(), 0x200);
    assert_eq!(mapper.translate_page(page(0, 0, 1, 1)).unwrap().number(), 0x204);
    assert_eq!(mapper.machine().read(&frame(0x100), 0), word(0x201, PRESENT | WRITABLE));
}

#[test]
fn map_range_maps_every_page() {
    let mut mapper = Mapper::new(machine(0x100));
    let mut allocator = allocator();
    let pages = Page::range_inclusive(page(0, 0, 0, 510), page(0, 0, 1, 1));
    mapper.map_range(pages, flags(WRITABLE), &mut allocator);
    let mut seen = Vec::new();
    for number in 510..=513u64 {
        let page = Page::from_number(number).unwrap();
        seen.push(mapper.translate_page(page).unwrap().number());
    }
    // Page 510 takes a frame and three tables, page 512 a frame and one table.
    assert_eq!(seen, vec![0x200, 0x204, 0x205, 0x207]);
    assert!(mapper.translate_page(page(0, 0, 0, 509)).is_none());
    assert!(mapper.translate_page(page(0, 0, 1, 2)).is_none());
    let empty = Page::range_inclusive(page(0, 0, 0, 9), page(0, 0, 0, 8));
    mapper.map_range(empty, flags(WRITABLE), &mut allocator);
    assert_eq!(allocator.allocate_frame().unwrap().number(), 0x208);
}

#[test]
fn identity_map_of_the_text_screen() {
    let mut mapper = Mapper::new(machine(0x100));
    let mut allocator = allocator();
    mapper.identity_map(Frame::containing_address(0xb8000), flags(WRITABLE), &mut allocator);
    assert_eq!(mapper.translate(0xb8000), Some(0xb8000));
    assert_eq!(mapper.translate(0xb8f9f), Some(0xb8f9f));
    assert_eq!(mapper.translate(0xb9000), None);
    assert_eq!(mapper.translate(0xb7fff), None);
}

#[test]
fn identity_map_range_maps_each_frame_at_its_address() {
    let mut mapper = Mapper::new(machine(0x100));
    let mut allocator = allocator();
    let frames = Frame::range_inclusive(frame(0x1ff), frame(0x201));
    mapper.identity_map_range(frames, flags(PRESENT), &mut allocator);
    for number in 0x1ffu64..=0x201 {
        assert_eq!(mapper.translate(number * 4096 + 5), Some(number * 4096 + 5));
    }
    assert_eq!(mapper.translate(0x202 * 4096), None);
    assert_eq!(mapper.machine().flushes().len(), 0);
}

#[test]
fn huge_pages_translate_by_their_lower_indices() {
    let mut machine = machine(0x100);
    // Level 4, entry 1 leads to the level-3 table in frame 0x101.
    machine.write(&frame(0x100), 1, word(0x101, PRESENT | WRITABLE));
    // Level 3, entry 2 is a huge page of 512 * 512 frames from 0x40000 on.
    machine.write(&frame(0x101), 2, word(0x40000, PRESENT | HUGE_PAGE));
    // Level 3, entry 3 leads to the level-2 table in frame 0x102.
    machine.write(&frame(0x101), 3, word(0x102, PRESENT | WRITABLE));
    // Level 2, entry 5 is a huge page of 512 frames from 0x400 on.
    machine.write(&frame(0x102), 5, word(0x400, PRESENT | HUGE_PAGE));
    let mapper = Mapper::new(machine);
    assert_eq!(
        mapper.translate_page(page(1, 2, 3, 4)).unwrap().number(),
        0x40000 + 3 * 512 + 4
    );
    assert_eq!(mapper.translate_page(page(1, 2, 0, 0)).unwrap().number(), 0x40000);
    assert_eq!(mapper.translate_page(page(1, 3, 5, 7)).unwrap().number(), 0x407);
    assert!(mapper.translate_page(page(1, 3, 6, 7)).is_none());
    assert!(mapper.translate_page(page(1, 4, 5, 7)).is_none());
    assert!(mapper.translate_page(page(2, 2, 3, 4)).is_none());
    assert_eq!(
        mapper.translate(page(1, 3, 5, 7).start_address() + 0xabc),
        Some(0x407 * 4096 + 0xabc)
    );
}

#[test]
fn the_recursive_entry_translates_the_table_addresses() {
    let mapper = Mapper::new(machine(0x100));
    assert_eq!(mapper.translate(P4_ADDRESS), Some(0x100 * 4096));
    assert_eq!(mapper.machine().table_frame(P4_ADDRESS).unwrap().number(), 0x100);
    assert_eq!(mapper.machine().table_base().number(), 0x100);
    assert_eq!(mapper.p4().start_address(), P4_ADDRESS);
    assert!(mapper.machine().table_frame(0x1000).is_none());
}

#[test]
fn machine_memory_reads_as_written() {
    let mut machine = Machine::new(frame(7));
    assert_eq!(machine.read(&frame(9), 5), 0);
    machine.write(&frame(9), 5, 0xdead_beef);
    machine.write(&frame(9), 6, 1);
    machine.write(&frame(10), 5, 2);
    assert_eq!(machine.read(&frame(9), 5), 0xdead_beef);
    machine.zero_frame(&frame(9));
    assert_eq!(machine.read(&frame(9), 5), 0);
    assert_eq!(machine.read(&frame(9), 6), 0);
    assert_eq!(machine.read(&frame(10), 5), 2);
    machine.flush(0x5000);
    machine.flush_all();
    assert_eq!(machine.flushes().clone(), vec![TlbFlush::Page(0x5000), TlbFlush::All]);
    machine.set_table_base(&frame(12));
    assert_eq!(machine.table_base().number(), 12);
    assert!(machine.next_table(&frame(10), 5).is_none());
    machine.write(&frame(10), 5, word(33, PRESENT));
    assert_eq!(machine.next_table(&frame(10), 5).unwrap().number(), 33);
    machine.write(&frame(10), 5, word(33, PRESENT | HUGE_PAGE));
    assert!(machine.next_table(&frame(10), 5).is_none());
}

#[test]
fn vacancy_of_pages() {
    let mut machine = machine(0x100);
    assert!(machine.is_recursive());
    // Level 4, entry 1 leads to the level-3 table in frame 0x101, whose
    // entry 2 is a huge page; entry 2 of level 4 is marked huge but absent.
    machine.write(&frame(0x100), 1, word(0x101, PRESENT | WRITABLE));
    machine.write(&frame(0x101), 2, word(0x40000, PRESENT | HUGE_PAGE));
    machine.write(&frame(0x100), 2, word(0, HUGE_PAGE));
    let mut mapper = Mapper::new(machine);
    let mut allocator = allocator();
    assert!(mapper.is_vacant(page(0, 0, 0, 0)));
    assert!(mapper.is_vacant(page(1, 3, 0, 0)));
    assert!(!mapper.is_vacant(page(1, 2, 0, 0)));
    assert!(!mapper.is_vacant(page(2, 0, 0, 0)));
    mapper.map_to(page(1, 3, 4, 5), frame(0x999), flags(WRITABLE), &mut allocator);
    assert!(!mapper.is_vacant(page(1, 3, 4, 5)));
    assert!(mapper.is_vacant(page(1, 3, 4, 6)));
    mapper.unmap(page(1, 3, 4, 5), &mut allocator);
    assert!(mapper.is_vacant(page(1, 3, 4, 5)));
    // Without the recursive entry nothing can be reached.
    let mut broken = mapper.into_machine();
    broken.write(&frame(0x100), 511, 0);
    assert!(!broken.is_recursive());
}
