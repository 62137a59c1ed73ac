//! Four-level page tables reached through a recursive mapping.

use vstd::prelude::*;
use crate::memory::{Frame, FrameAllocator, PAGE_SIZE};
use self::entry::{
    lemma_flag_bits, lemma_make_word, make_word, word_present, ElfSection, PageEntry,
    PageEntryFlags, ENTRY_FRAME_LIMIT, PRESENT, WRITABLE,
};
use self::machine::{Machine, MachineView, TlbFlush};
use self::mapper::Mapper;
use self::remap::KernelImage;
use self::table::supply_advanced;
use self::temporary_page::{TemporaryPage, TinyAllocator};

pub mod entry;
pub mod hierarchy;
pub mod machine;
pub mod mapper;
pub mod rebuild;
pub mod remap;
pub mod table;
pub mod temporary_page;

verus! {

/// Number of entries in a page table.
pub const PAGE_ENTRY_COUNT: usize = 512;

/// Page numbers below this bound lie in the lower half of the address space.
pub const LOWER_HALF_PAGES: u64 = 0x8_0000_0000;

/// Page numbers from this one on lie in the upper half of the address space.
pub const UPPER_HALF_START: u64 = 0xf_fff8_0000_0000;

/// Page numbers lie below this bound.
pub const PAGE_LIMIT: u64 = 0x10_0000_0000_0000;

/// Whether bits 48 to 63 of `address` repeat bit 47, as the processor wants.
pub open spec fn is_canonical(address: u64) -> bool {
    address < 0x0000_8000_0000_0000 || address >= 0xffff_8000_0000_0000
}

/// Whether `number` is the number of a page at a canonical address.
pub open spec fn is_page_number(number: nat) -> bool {
    number < LOWER_HALF_PAGES || UPPER_HALF_START <= number < PAGE_LIMIT
}

/// Index into the level-4 table on the way to page `number`.
pub open spec fn p4_index_of(number: nat) -> nat {
    (number / 0x800_0000) % 512
}

/// Index into the level-3 table on the way to page `number`.
pub open spec fn p3_index_of(number: nat) -> nat {
    (number / 0x4_0000) % 512
}

/// Index into the level-2 table on the way to page `number`.
pub open spec fn p2_index_of(number: nat) -> nat {
    (number / 512) % 512
}

/// Index into the level-1 table of page `number`.
pub open spec fn p1_index_of(number: nat) -> nat {
    number % 512
}

/// A page's number times the page size is the page's address, and fits.
pub proof fn lemma_page_number_bound(page: nat)
    ensures
        page < PAGE_LIMIT ==> ((page * 4096) as u64) as nat / 4096 == page && ((page * 4096) as u64)
            % 4096 == 0,
{
}

/// A page of virtual memory, named by its number.
#[derive(Debug, Clone, Copy, PartialEq, Eq, PartialOrd, Ord, Structural)]
pub struct Page {
    number: u64,
}

impl View for Page {
    type V = nat;

    /// The page's number.
    closed spec fn view(&self) -> nat {
        self.number as nat
    }
}

impl Page {
    #[verifier::type_invariant]
    spec fn canonical(self) -> bool {
        is_page_number(self.number as nat)
    }

    /// Address of the first byte of the page.
    pub open spec fn spec_start_address(&self) -> nat {
        self@ * 4096
    }

    /// The page that holds `address`. The address has to be canonical.
    pub fn containing_address(address: u64) -> (page: Page)
        requires
            is_canonical(address),
        ensures
            page@ == address as nat / 4096,
            page.spec_start_address() <= address < page.spec_start_address() + PAGE_SIZE,
            is_page_number(page@),
    {
        assert(address >= 0xffff_8000_0000_0000 ==> address / 4096 >= 0xf_fff8_0000_0000)
            by (bit_vector);
        Page { number: address / 4096 }
    }

    /// The page with the given number, if the number names a page.
    pub fn from_number(number: u64) -> (page: Option<Page>)
        ensures
            page.is_some() <==> is_page_number(number as nat),
            page.is_some() ==> page.unwrap()@ == number,
    {
        if number < LOWER_HALF_PAGES || (UPPER_HALF_START <= number && number < PAGE_LIMIT) {
            Some(Page { number })
        } else {
            None
        }
    }

    /// The page's number.
    pub fn number(&self) -> (number: u64)
        ensures
            number == self@,
            is_page_number(self@),
    {
        proof {
            use_type_invariant(self);
        }
        self.number
    }

    /// Address of the first byte of the page.
    pub fn start_address(&self) -> (address: u64)
        ensures
            address == self.spec_start_address(),
            is_canonical(address),
            address % 4096 == 0,
    {
        proof {
            use_type_invariant(self);
        }
        self.number * 4096
    }

    /// The pages from `start` to `end`, both included, in rising order. A run
    /// that is not empty has to stay inside one half of the address space.
    pub fn range_inclusive(start: Page, end: Page) -> (pages: PageIter)
        requires
            start@ <= end@ ==> (start@ < LOWER_HALF_PAGES <==> end@ < LOWER_HALF_PAGES),
        ensures
            pages.start() == start@,
            pages.end() == end@,
    {
        proof {
            use_type_invariant(start);
            use_type_invariant(end);
        }
        PageIter { start: start.number, end: end.number }
    }

    /// Index into the level-4 table on the way to the page.
    pub fn p4_index(&self) -> (index: usize)
        ensures
            index == p4_index_of(self@),
            index < 512,
    {
        let number = self.number;
        assert((number >> 27) & 0o777 == (number / 0x800_0000) % 512) by (bit_vector);
        ((self.number >> 27) & 0o777) as usize
    }

    /// Index into the level-3 table on the way to the page.
    pub fn p3_index(&self) -> (index: usize)
        ensures
            index == p3_index_of(self@),
            index < 512,
    {
        let number = self.number;
        assert((number >> 18) & 0o777 == (number / 0x4_0000) % 512) by (bit_vector);
        ((self.number >> 18) & 0o777) as usize
    }

    /// Index into the level-2 table on the way to the page.
    pub fn p2_index(&self) -> (index: usize)
        ensures
            index == p2_index_of(self@),
            index < 512,
    {
        let number = self.number;
        assert((number >> 9) & 0o777 == (number / 512) % 512) by (bit_vector);
        ((self.number >> 9) & 0o777) as usize
    }

    /// Index into the level-1 table of the page.
    pub fn p1_index(&self) -> (index: usize)
        ensures
            index == p1_index_of(self@),
            index < 512,
    {
        let number = self.number;
        assert((number >> 0) & 0o777 == number % 512) by (bit_vector);
        ((self.number >> 0) & 0o777) as usize
    }

    /// The page `rhs` pages above this one. The result has to be a page.
    pub fn add(self, rhs: usize) -> (page: Page)
        requires
            is_page_number(self@ + rhs as nat),
        ensures
            page@ == self@ + rhs,
    {
        proof {
            use_type_invariant(self);
        }
        Page { number: self.number + rhs as u64 }
    }
}

/// A run of consecutive pages, handed out one by one from the low end.
#[derive(Copy, Clone)]
pub struct PageIter {
    start: u64,
    end: u64,
}

impl PageIter {
    #[verifier::type_invariant]
    spec fn in_range(self) -> bool {
        &&& self.start <= PAGE_LIMIT
        &&& is_page_number(self.end as nat)
        &&& self.start <= self.end ==> is_page_number(self.start as nat) && (self.start
            < LOWER_HALF_PAGES <==> self.end < LOWER_HALF_PAGES)
    }

    /// Number of the next page to hand out.
    pub closed spec fn start(&self) -> nat {
        self.start as nat
    }

    /// Number of the last page of the run.
    pub closed spec fn end(&self) -> nat {
        self.end as nat
    }

    /// How many pages are left.
    pub open spec fn remaining(&self) -> nat {
        if self.start() <= self.end() {
            (self.end() - self.start() + 1) as nat
        } else {
            0
        }
    }

    /// How many pages are left.
    pub fn len(&self) -> (count: u64)
        ensures
            count == self.remaining(),
    {
        proof {
            use_type_invariant(self);
        }
        if self.start <= self.end {
            self.end - self.start + 1
        } else {
            0
        }
    }

    /// Hands out the lowest page that is left, if any.
    pub fn next(&mut self) -> (page: Option<Page>)
        ensures
            final(self).end() == old(self).end(),
            old(self).remaining() > 0 ==> page.is_some() && page.unwrap()@ == old(self).start()
                && final(self).start() == old(self).start() + 1,
            old(self).remaining() == 0 ==> page.is_none() && final(self).start() == old(
                self,
            ).start(),
            page.is_some() ==> (page.unwrap()@ < LOWER_HALF_PAGES <==> old(self).end()
                < LOWER_HALF_PAGES),
    {
        proof {
            use_type_invariant(&*self);
        }
        if self.start <= self.end {
            let page = Page { number: self.start };
            self.start = self.start + 1;
            Some(page)
        } else {
            None
        }
    }

    /// Skips `n` pages and hands out the one after them. A run that is too
    /// short is used up and gives `None`.
    pub fn nth(&mut self, n: usize) -> (page: Option<Page>)
        ensures
            final(self).end() == old(self).end(),
            old(self).remaining() > n ==> page.is_some() && page.unwrap()@ == old(self).start() + n
                && final(self).start() == old(self).start() + n + 1,
            old(self).remaining() <= n ==> page.is_none() && final(self).remaining() == 0,
            page.is_some() ==> (page.unwrap()@ < LOWER_HALF_PAGES <==> old(self).end()
                < LOWER_HALF_PAGES),
    {
        proof {
            use_type_invariant(&*self);
        }
        if self.start <= self.end && (n as u64) <= self.end - self.start {
            let page = Page { number: self.start + n as u64 };
            self.start = self.start + n as u64 + 1;
            Some(page)
        } else {
            if self.start <= self.end {
                self.start = self.end + 1;
            }
            None
        }
    }
}

} // verus!

verus! {

impl MachineView {
    /// The machine after `frame` was formatted as an empty level-4 table
    /// through the page `page`: the page mapped to the frame, the frame
    /// cleared, its last entry pointed to the frame itself, the page unmapped.
    pub open spec fn format_table<A: FrameAllocator>(
        self,
        frame: nat,
        page: nat,
        allocator: &A,
    ) -> MachineView {
        self.map_to(page, frame, WRITABLE, allocator, 0).0.zero_table(frame).set_entry(
            frame,
            511,
            make_word(frame, PRESENT | WRITABLE),
        ).unmap(page)
    }

    /// Whether `frame` can be formatted as a level-4 table through `page`:
    /// the loaded table is its own root, the page is free to be mapped, and
    /// the frame is none of the tables that map the page.
    pub open spec fn can_format_table<A: FrameAllocator>(
        self,
        frame: nat,
        page: nat,
        allocator: &A,
    ) -> bool {
        &&& is_page_number(page)
        &&& self.self_referencing()
        &&& self.mapping(page).is_none()
        &&& self.can_map_to(page, frame, allocator, 0)
        &&& !self.map_to(page, frame, WRITABLE, allocator, 0).0.is_table_of(page, frame)
    }

    /// The machine while work goes on in the hierarchy of `inactive`: the
    /// loaded table is mapped at `page`, with tables from the frames that
    /// `allocator` hands out after `used` others, its last entry points to
    /// `inactive` and every cached translation is dropped.
    pub open spec fn enter_inactive<A: FrameAllocator>(
        self,
        inactive: nat,
        page: nat,
        allocator: &A,
        used: nat,
    ) -> MachineView {
        self.map_to(page, self.table_base, WRITABLE, allocator, used).0.set_entry(
            self.table_base,
            511,
            make_word(inactive, PRESENT | WRITABLE),
        ).flushed(TlbFlush::All)
    }

    /// The machine after the work: the last entry of the loaded table holds
    /// `saved`, the word it held before the work, every cached translation is
    /// dropped and `page` is unmapped.
    pub open spec fn leave_inactive(self, page: nat, saved: u64) -> MachineView {
        self.set_entry(self.table_base, 511, saved).flushed(TlbFlush::All).unmap(page)
    }

    /// Whether the work can be wound up: `page` still leads to the loaded
    /// table, before and after that table's last entry gets the word `saved`
    /// back, and the entry that maps `page` is not the restored one.
    pub open spec fn can_leave_inactive(self, page: nat, saved: u64) -> bool {
        let restored = self.set_entry(self.table_base, 511, saved);
        &&& self.table_frame((page * 4096) as u64) == Some(self.table_base)
        &&& restored.table_frame((page * 4096) as u64) == Some(self.table_base)
        &&& !restored.is_recursive_entry(restored.p1_table(page).unwrap(), p1_index_of(page))
    }
}

impl MachineView {
    /// Formatting a frame as a level-4 table goes through: the page leads to
    /// the frame while the frame is written, the recursive mapping of the
    /// loaded table stays in place, and in the end the frame's last entry
    /// leads to the frame itself.
    pub proof fn lemma_format_table<A: FrameAllocator>(self, frame: nat, page: nat, allocator: &A)
        requires
            self.can_format_table(frame, page, allocator),
        ensures
            ({
                let mapped = self.map_to(page, frame, WRITABLE, allocator, 0).0;
                let cleared = mapped.zero_table(frame);
                let linked = cleared.set_entry(frame, 511, make_word(frame, PRESENT | WRITABLE));
                let done = linked.unmap(page);
                &&& frame < ENTRY_FRAME_LIMIT
                &&& mapped.table_frame((page * 4096) as u64) == Some(frame)
                &&& cleared.table_frame((page * 4096) as u64) == Some(frame)
                &&& linked.recursive()
                &&& linked.p1_table(page).is_some()
                &&& word_present(linked.entry(linked.p1_table(page).unwrap(), p1_index_of(page)))
                &&& done == self.format_table(frame, page, allocator)
                &&& done.self_referencing()
                &&& done.table_base == self.table_base
                &&& done.next_table(frame, 511) == Some(frame)
                &&& done.mapping(page).is_none()
            }),
    {
        lemma_flag_bits();
        self.lemma_map_to_entry(page, frame, WRITABLE, allocator, 0);
        assert(frame < ENTRY_FRAME_LIMIT) by {
            reveal(MachineView::can_map_to);
        }
        lemma_make_word(frame as u64, WRITABLE | PRESENT);
        lemma_make_word(frame as u64, PRESENT | WRITABLE);
        let mapped = self.map_to(page, frame, WRITABLE, allocator, 0).0;
        let p1 = mapped.p1_table(page).unwrap();
        let leaf = mapped.entry(p1, p1_index_of(page));
        assert(mapped.next_table(p1, p1_index_of(page)) == Some(frame));
        assert(mapped.self_referencing());
        mapped.lemma_page_as_table(page);

        let cleared = mapped.zero_table(frame);
        mapped.lemma_zero_table_entries(frame);
        mapped.lemma_writes_off_the_way(cleared, page, frame);
        assert(cleared.self_referencing());
        cleared.lemma_page_as_table(page);

        let linked = cleared.set_entry(frame, 511, make_word(frame, PRESENT | WRITABLE));
        assert forall|table: nat, index: nat| table != frame && index < 512 implies
            #[trigger] linked.entry(table, index) == cleared.entry(table, index) by {
            assert(table * 512 + index != frame * 512 + 511);
        }
        cleared.lemma_writes_off_the_way(linked, page, frame);
        assert(linked.entry(p1, p1_index_of(page)) == leaf);
        linked.lemma_unmap_untranslates(page);
        let done = linked.unmap(page);
        assert(done.entry(frame, 511) == linked.entry(frame, 511)) by {
            assert(p1 * 512 + p1_index_of(page) != frame * 512 + 511);
        }
        assert(done.entry(done.table_base, 511) == linked.entry(linked.table_base, 511)) by {
            assert(p1 * 512 + p1_index_of(page) != linked.table_base * 512 + 511);
        }
    }
}

/// Work on a table hierarchy, handed to [`ActivePageTable::with`] to be run
/// while that hierarchy takes the place of the loaded one.
pub trait TableEdit<A: FrameAllocator>: Sized {
    /// Whether the work can start in this state. Work that says nothing
    /// else can start in none.
    open spec fn admits(&self, machine: MachineView, allocator: &A) -> bool {
        false
    }

    /// The machine that the work leaves, and the number of frames it takes
    /// from the allocator. Work that says nothing else leaves the machine
    /// as it is.
    open spec fn outcome(&self, machine: MachineView, allocator: &A) -> (MachineView, nat) {
        (machine, 0)
    }

    /// Does the work if it can start, and says whether it did. Work that
    /// could not start may leave a part of itself done.
    fn run(self, mapper: &mut Mapper, allocator: &mut A) -> (done: bool)
        ensures
            done == self.admits(old(mapper)@, old(allocator)),
            done ==> final(mapper)@ == self.outcome(old(mapper)@, old(allocator)).0,
            done ==> supply_advanced(
                old(allocator),
                final(allocator),
                self.outcome(old(mapper)@, old(allocator)).1,
            ),
    ;
}

impl MachineView {
    /// Whether `edit` can be run on the hierarchy of `inactive` through
    /// `page`: the loaded table is its own root, the page is free and can be
    /// mapped to the loaded table with the frames of `tiny`, the work can
    /// start with `allocator`, leaves the table-base register alone, and can
    /// be wound up.
    pub open spec fn can_edit_inactive<A: FrameAllocator, F: TableEdit<A>>(
        self,
        inactive: nat,
        page: nat,
        tiny: &TinyAllocator,
        edit: &F,
        allocator: &A,
    ) -> bool {
        let entered = self.enter_inactive(inactive, page, tiny, 0);
        &&& self.self_referencing()
        &&& inactive < ENTRY_FRAME_LIMIT
        &&& self.mapping(page).is_none()
        &&& self.can_map_to(page, self.table_base, tiny, 0)
        &&& edit.admits(entered, allocator)
        &&& edit.outcome(entered, allocator).0.table_base == self.table_base
        &&& edit.outcome(entered, allocator).0.can_leave_inactive(
            page,
            self.entry(self.table_base, 511),
        )
    }
}

/// A level-4 table that is formatted, with its own recursive entry, but not
/// loaded.
pub struct InactivePageTable {
    p4_frame: Frame,
}

impl InactivePageTable {
    /// The frame that holds the level-4 table.
    pub closed spec fn frame(&self) -> Frame {
        self.p4_frame
    }

    /// The frame that holds the level-4 table.
    pub fn p4_frame(&self) -> (frame: Frame)
        ensures
            frame == self.frame(),
    {
        self.p4_frame.clone()
    }

    /// Formats `frame` as an empty level-4 table whose last entry points to
    /// itself. The frame is reached through `temporary_page`, since it has no
    /// address of its own yet.
    ///
    /// In a tree this goes through for a frame that holds no table and a
    /// temporary page that nothing stands in the way of: see
    /// `MachineView::lemma_format_in_tree`.
    pub fn new(
        frame: Frame,
        active_table: &mut ActivePageTable,
        temporary_page: &mut TemporaryPage,
    ) -> (table: InactivePageTable)
        requires
            old(active_table)@.can_format_table(
                frame@,
                old(temporary_page).page()@,
                &old(temporary_page).allocator(),
            ),
        ensures
            table.frame() == frame,
            final(active_table)@ == old(active_table)@.format_table(
                frame@,
                old(temporary_page).page()@,
                &old(temporary_page).allocator(),
            ),
            final(temporary_page).page() == old(temporary_page).page(),
            supply_advanced(
                &old(temporary_page).allocator(),
                &final(temporary_page).allocator(),
                old(active_table)@.map_to(
                    old(temporary_page).page()@,
                    frame@,
                    WRITABLE,
                    &old(temporary_page).allocator(),
                    0,
                ).1,
            ),
            final(active_table)@.self_referencing(),
            final(active_table)@.table_base == old(active_table)@.table_base,
            final(active_table)@.next_table(frame@, 511) == Some(frame@),
            final(active_table)@.mapping(old(temporary_page).page()@).is_none(),
    {
        InactivePageTable::try_new(frame, active_table, temporary_page).unwrap()
    }

    /// Formats `frame` as `new` does, if that can be done, and returns the
    /// table if it was: it was not if the loaded table is not its own root,
    /// the temporary page cannot be mapped, or the frame is one of the
    /// tables that map the page.
    pub fn try_new(
        frame: Frame,
        active_table: &mut ActivePageTable,
        temporary_page: &mut TemporaryPage,
    ) -> (table: Option<InactivePageTable>)
        ensures
            table.is_some() == old(active_table)@.can_format_table(
                frame@,
                old(temporary_page).page()@,
                &old(temporary_page).allocator(),
            ),
            table.is_some() ==> {
                &&& table.unwrap().frame() == frame
                &&& final(active_table)@ == old(active_table)@.format_table(
                    frame@,
                    old(temporary_page).page()@,
                    &old(temporary_page).allocator(),
                )
                &&& supply_advanced(
                    &old(temporary_page).allocator(),
                    &final(temporary_page).allocator(),
                    old(active_table)@.map_to(
                        old(temporary_page).page()@,
                        frame@,
                        WRITABLE,
                        &old(temporary_page).allocator(),
                        0,
                    ).1,
                )
                &&& final(active_table)@.self_referencing()
                &&& final(active_table)@.next_table(frame@, 511) == Some(frame@)
                &&& final(active_table)@.mapping(old(temporary_page).page()@).is_none()
            },
            final(temporary_page).page() == old(temporary_page).page(),
            final(active_table)@.table_base == old(active_table)@.table_base,
    {
        let ghost page = temporary_page.page()@;
        let ghost number = frame@;
        let ghost before = active_table@;
        let ghost tiny = temporary_page.allocator();
        let reserved = temporary_page.reserved();
        let page_number = reserved.number();
        if !active_table.mapper.machine().is_self_referencing() {
            return None;
        }
        let table = match temporary_page.try_map_table_frame(
            frame.clone(),
            &mut active_table.mapper,
        ) {
            Some(table) => table,
            None => { return None; },
        };
        if active_table.mapper.is_table_of(reserved, &frame) {
            return None;
        }
        proof {
            lemma_flag_bits();
            before.lemma_format_table(number, page, &tiny);
        }
        table.zero(active_table.mapper.machine_mut());
        let mut entry = PageEntry(0);
        entry.set(frame.clone(), PageEntryFlags::from_bits_truncate(PRESENT | WRITABLE));
        table.set_entry(active_table.mapper.machine_mut(), 511, entry);
        temporary_page.unmap(&mut active_table.mapper);
        Some(InactivePageTable { p4_frame: frame })
    }
}

/// The table hierarchy that is loaded in the table-base register.
pub struct ActivePageTable {
    mapper: Mapper,
}

impl View for ActivePageTable {
    type V = MachineView;

    closed spec fn view(&self) -> MachineView {
        self.mapper@
    }
}

impl ActivePageTable {
    /// The hierarchy that is loaded in `machine`.
    pub fn new(machine: Machine) -> (table: ActivePageTable)
        ensures
            table@ == machine@,
    {
        ActivePageTable { mapper: Mapper::new(machine) }
    }

    /// The mapper for the loaded hierarchy.
    pub fn mapper(&self) -> (mapper: &Mapper)
        ensures
            mapper@ == self@,
    {
        &self.mapper
    }

    /// The mapper for the loaded hierarchy, to change it.
    pub fn mapper_mut(&mut self) -> (mapper: &mut Mapper)
        ensures
            mapper@ == old(self)@,
            final(self)@ == final(mapper)@,
    {
        &mut self.mapper
    }

    /// Gives the machine back.
    pub fn into_machine(self) -> (machine: Machine)
        ensures
            machine@ == self@,
    {
        self.mapper.into_machine()
    }

    /// Runs `edit` on the hierarchy of `table` while the processor goes on
    /// with the loaded one: the loaded level-4 table is mapped at the
    /// temporary page, its recursive entry is pointed to `table` and the TLB
    /// flushed, so that every table walk of the mapper lands in `table`;
    /// after the work the entry gets the word back that it held before,
    /// through the temporary page, the TLB is flushed again and the temporary
    /// page unmapped. The recursive entry of the loaded table is in the end
    /// what it was, frame and flags.
    ///
    /// `table` has to carry its own recursive entry already. Work that
    /// leaves the tables of the loaded hierarchy alone can be wound up: see
    /// `MachineView::lemma_enter_in_tree` and
    /// `MachineView::lemma_leave_in_tree`.
    pub fn with<A: FrameAllocator, F: TableEdit<A>>(
        &mut self,
        table: &mut InactivePageTable,
        temporary_page: &mut TemporaryPage,
        allocator: &mut A,
        edit: F,
    )
        requires
            old(self)@.can_edit_inactive(
                old(table).frame()@,
                old(temporary_page).page()@,
                &old(temporary_page).allocator(),
                &edit,
                old(allocator),
            ),
        ensures
            final(self)@ == edit.outcome(
                old(self)@.enter_inactive(
                    old(table).frame()@,
                    old(temporary_page).page()@,
                    &old(temporary_page).allocator(),
                    0,
                ),
                old(allocator),
            ).0.leave_inactive(
                old(temporary_page).page()@,
                old(self)@.entry(old(self)@.table_base, 511),
            ),
            supply_advanced(
                old(allocator),
                final(allocator),
                edit.outcome(
                    old(self)@.enter_inactive(
                        old(table).frame()@,
                        old(temporary_page).page()@,
                        &old(temporary_page).allocator(),
                        0,
                    ),
                    old(allocator),
                ).1,
            ),
            final(table).frame() == old(table).frame(),
            final(temporary_page).page() == old(temporary_page).page(),
            final(self)@.table_base == old(self)@.table_base,
            final(self)@.entry(final(self)@.table_base, 511) == old(self)@.entry(
                old(self)@.table_base,
                511,
            ),
            final(self)@.self_referencing(),
    {
        self.try_with(table, temporary_page, allocator, edit);
    }

    /// Runs `edit` as `with` does, if that can be done, and says whether it
    /// was. Where it was not, a part of the work may be done and the
    /// temporary page may be left mapped.
    pub fn try_with<A: FrameAllocator, F: TableEdit<A>>(
        &mut self,
        table: &mut InactivePageTable,
        temporary_page: &mut TemporaryPage,
        allocator: &mut A,
        edit: F,
    ) -> (done: bool)
        ensures
            done == old(self)@.can_edit_inactive(
                old(table).frame()@,
                old(temporary_page).page()@,
                &old(temporary_page).allocator(),
                &edit,
                old(allocator),
            ),
            done ==> {
                &&& final(self)@ == edit.outcome(
                    old(self)@.enter_inactive(
                        old(table).frame()@,
                        old(temporary_page).page()@,
                        &old(temporary_page).allocator(),
                        0,
                    ),
                    old(allocator),
                ).0.leave_inactive(
                    old(temporary_page).page()@,
                    old(self)@.entry(old(self)@.table_base, 511),
                )
                &&& supply_advanced(
                    old(allocator),
                    final(allocator),
                    edit.outcome(
                        old(self)@.enter_inactive(
                            old(table).frame()@,
                            old(temporary_page).page()@,
                            &old(temporary_page).allocator(),
                            0,
                        ),
                        old(allocator),
                    ).1,
                )
                &&& final(table).frame() == old(table).frame()
                &&& final(temporary_page).page() == old(temporary_page).page()
                &&& final(self)@.table_base == old(self)@.table_base
                &&& final(self)@.entry(final(self)@.table_base, 511) == old(self)@.entry(
                    old(self)@.table_base,
                    511,
                )
                &&& final(self)@.self_referencing()
            },
            final(table).frame() == old(table).frame(),
            final(temporary_page).page() == old(temporary_page).page(),
    {
        let ghost page = temporary_page.page()@;
        let ghost before = self@;
        let ghost inactive = table.frame()@;
        let reserved = temporary_page.reserved();
        let page_number = reserved.number();
        if !self.mapper.machine().is_self_referencing() || table.p4_frame.number()
            >= ENTRY_FRAME_LIMIT {
            return false;
        }
        let backup = self.mapper.machine().table_base();
        proof {
            before.lemma_table_addresses(page);
        }
        // Keep the recursive entry as it is found.
        let saved = self.mapper.p4().entry(self.mapper.machine(), 511);
        proof {
            lemma_flag_bits();
        }
        let p4_table = match temporary_page.try_map_table_frame(backup.clone(), &mut self.mapper) {
            Some(p4_table) => p4_table,
            None => { return false; },
        };
        proof {
            before.lemma_map_to_translates(
                page,
                before.table_base,
                WRITABLE,
                &old(temporary_page).allocator(),
                0,
            );
            self@.lemma_table_addresses(page);
        }
        // Point the recursive entry to the inactive table.
        let mut entry = PageEntry(0);
        entry.set(table.p4_frame.clone(), PageEntryFlags::from_bits_truncate(PRESENT | WRITABLE));
        self.mapper.p4().set_entry(self.mapper.machine_mut(), 511, entry);
        self.mapper.machine_mut().flush_all();

        // Work in the hierarchy of the inactive table.
        if !edit.run(&mut self.mapper, allocator) {
            return false;
        }
        if self.mapper.machine().table_base().number() != backup.number() {
            return false;
        }
        match self.mapper.machine().table_frame(reserved.start_address()) {
            Some(found) => {
                if found.number() != backup.number() {
                    return false;
                }
            },
            None => { return false; },
        }

        // Give the recursive entry back what it held.
        p4_table.set_entry(self.mapper.machine_mut(), 511, saved);
        match self.mapper.machine().table_frame(reserved.start_address()) {
            Some(found) => {
                if found.number() != backup.number() {
                    return false;
                }
            },
            None => { return false; },
        }
        let p1 = self.mapper.p1_table_frame(reserved);
        match p1 {
            Some(p1) => {
                if reserved.p1_index() == 511 && p1.number() == backup.number() {
                    return false;
                }
            },
            None => {},
        }
        self.mapper.machine_mut().flush_all();
        proof {
            let restored = self@;
            assert(restored.entry(restored.table_base, 511) == saved@);
            restored.lemma_table_addresses(page);
            restored.lemma_unmap_untranslates(page);
            let p1 = restored.p1_table(page).unwrap();
            assert(p1 * 512 + p1_index_of(page) != restored.table_base * 512 + 511);
        }
        temporary_page.unmap(&mut self.mapper);
        true
    }

    /// Loads `new_table` into the table-base register and returns the table
    /// that was loaded before.
    pub fn switch(&mut self, new_table: InactivePageTable) -> (old_table: InactivePageTable)
        ensures
            final(self)@ == old(self)@.based_at(new_table.frame()@),
            old_table.frame()@ == old(self)@.table_base,
    {
        let old_table = InactivePageTable { p4_frame: self.mapper.machine().table_base() };
        self.mapper.machine_mut().set_table_base(&new_table.p4_frame);
        old_table
    }
}

/// Number of the page through which tables are reached while the kernel's
/// hierarchy is built.
pub const REMAP_PAGE: u64 = 0xcafebabe;

/// The steps of giving the kernel a hierarchy of its own.
pub struct Remap {
    /// After the new level-4 table was formatted.
    pub formatted: MachineView,
    /// While the new hierarchy is filled.
    pub entered: MachineView,
    /// After the kernel image was mapped in the new hierarchy.
    pub edited: MachineView,
    /// After the loaded table got its recursive entry back.
    pub left: MachineView,
    /// After the new table was loaded.
    pub switched: MachineView,
    /// After the page of the old level-4 table was unmapped.
    pub done: MachineView,
    /// Number of frames taken from the allocator.
    pub used: nat,
}

impl MachineView {
    /// The steps of giving the kernel a hierarchy of its own. The first three
    /// frames of `allocator` pay for the tables of the temporary page, the
    /// fourth becomes the new level-4 table, the following ones the tables
    /// of the new hierarchy.
    pub open spec fn remap_steps<A: FrameAllocator>(
        self,
        sections: Seq<ElfSection>,
        boot_info_start: u64,
        boot_info_end: u64,
        allocator: &A,
    ) -> Remap {
        let tiny = TinyAllocator::holding(
            allocator.upcoming(0),
            allocator.upcoming(1),
            allocator.upcoming(2),
        );
        let table = allocator.upcoming(3).unwrap()@;
        let formatted = self.format_table(table, REMAP_PAGE as nat, &tiny);
        let paid = self.map_to(REMAP_PAGE as nat, table, WRITABLE, &tiny, 0).1;
        let entered = formatted.enter_inactive(table, REMAP_PAGE as nat, &tiny, paid);
        let (edited, used) = entered.map_image(
            sections,
            boot_info_start,
            boot_info_end,
            allocator,
            4,
        );
        let left = edited.leave_inactive(
            REMAP_PAGE as nat,
            formatted.entry(formatted.table_base, 511),
        );
        let switched = left.based_at(table);
        Remap {
            formatted,
            entered,
            edited,
            left,
            switched,
            done: switched.unmap(self.table_base),
            used,
        }
    }

    /// Whether the kernel can be given a hierarchy of its own: the allocator
    /// has a frame for the new level-4 table, which can be formatted through
    /// the temporary page; the loaded table can be mapped there again; the
    /// kernel image can be mapped in the new hierarchy, which leaves the
    /// loaded table where it is and the temporary page leading to it; the new
    /// table still carries its recursive entry when it is loaded; and the
    /// page of the old level-4 table is mapped in the new hierarchy.
    pub open spec fn can_remap<A: FrameAllocator>(
        self,
        sections: Seq<ElfSection>,
        boot_info_start: u64,
        boot_info_end: u64,
        allocator: &A,
    ) -> bool {
        let tiny = TinyAllocator::holding(
            allocator.upcoming(0),
            allocator.upcoming(1),
            allocator.upcoming(2),
        );
        let table = allocator.upcoming(3).unwrap()@;
        let paid = self.map_to(REMAP_PAGE as nat, table, WRITABLE, &tiny, 0).1;
        let steps = self.remap_steps(sections, boot_info_start, boot_info_end, allocator);
        &&& allocator.upcoming(3).is_some()
        &&& is_page_number(self.table_base)
        &&& self.can_format_table(table, REMAP_PAGE as nat, &tiny)
        &&& steps.formatted.can_map_to(REMAP_PAGE as nat, self.table_base, &tiny, paid)
        &&& steps.entered.can_map_image(sections, boot_info_start, boot_info_end, allocator, 4)
        &&& steps.edited.table_base == self.table_base
        &&& steps.edited.can_leave_inactive(
            REMAP_PAGE as nat,
            steps.formatted.entry(steps.formatted.table_base, 511),
        )
        &&& steps.switched.recursive()
        &&& steps.switched.p1_table(self.table_base).is_some()
        &&& word_present(
            steps.switched.entry(
                steps.switched.p1_table(self.table_base).unwrap(),
                p1_index_of(self.table_base),
            ),
        )
    }
}

/// Gives the kernel a table hierarchy of its own and loads it: a new
/// level-4 table is formatted, the kernel image, the boot information and
/// the text screen are mapped in it at their own addresses, the table is
/// loaded, and the page of the old level-4 table is unmapped, so that the
/// memory below the kernel stack, which lies above that table, is a guard
/// page.
///
/// From the machine as the boot code leaves it this goes through, and the
/// address space it leaves is the kernel image at its own addresses without
/// that page: see `MachineView::lemma_rebuild`.
pub fn remap_the_kernel<A: FrameAllocator>(
    machine: Machine,
    allocator: &mut A,
    image: KernelImage,
) -> (active_table: ActivePageTable)
    requires
        machine@.can_remap(
            image.sections@,
            image.boot_info_start,
            image.boot_info_end,
            old(allocator),
        ),
    ensures
        active_table@ == machine@.remap_steps(
            image.sections@,
            image.boot_info_start,
            image.boot_info_end,
            old(allocator),
        ).done,
        supply_advanced(
            old(allocator),
            final(allocator),
            machine@.remap_steps(
                image.sections@,
                image.boot_info_start,
                image.boot_info_end,
                old(allocator),
            ).used,
        ),
        active_table@.table_base == old(allocator).upcoming(3).unwrap()@,
        !machine@.remap_steps(
            image.sections@,
            image.boot_info_start,
            image.boot_info_end,
            old(allocator),
        ).switched.is_recursive_entry(
            machine@.remap_steps(
                image.sections@,
                image.boot_info_start,
                image.boot_info_end,
                old(allocator),
            ).switched.p1_table(machine@.table_base).unwrap(),
            p1_index_of(machine@.table_base),
        ) ==> active_table@.recursive() && active_table@.mapping(machine@.table_base).is_none(),
{
    match try_remap_the_kernel(machine, allocator, image) {
        Ok(active_table) => active_table,
        Err(machine) => ActivePageTable::new(machine),
    }
}

/// Gives the kernel a table hierarchy of its own as `remap_the_kernel`
/// does, if that can be done; where it cannot, the machine comes back as
/// far as the work got.
pub fn try_remap_the_kernel<A: FrameAllocator>(
    machine: Machine,
    allocator: &mut A,
    image: KernelImage,
) -> (remapped: Result<ActivePageTable, Machine>)
    ensures
        remapped.is_ok() == machine@.can_remap(
            image.sections@,
            image.boot_info_start,
            image.boot_info_end,
            old(allocator),
        ),
        remapped matches Ok(active_table) ==> {
            &&& active_table@ == machine@.remap_steps(
                image.sections@,
                image.boot_info_start,
                image.boot_info_end,
                old(allocator),
            ).done
            &&& supply_advanced(
                old(allocator),
                final(allocator),
                machine@.remap_steps(
                    image.sections@,
                    image.boot_info_start,
                    image.boot_info_end,
                    old(allocator),
                ).used,
            )
            &&& active_table@.table_base == old(allocator).upcoming(3).unwrap()@
            &&& !machine@.remap_steps(
                image.sections@,
                image.boot_info_start,
                image.boot_info_end,
                old(allocator),
            ).switched.is_recursive_entry(
                machine@.remap_steps(
                    image.sections@,
                    image.boot_info_start,
                    image.boot_info_end,
                    old(allocator),
                ).switched.p1_table(machine@.table_base).unwrap(),
                p1_index_of(machine@.table_base),
            ) ==> active_table@.recursive() && active_table@.mapping(
                machine@.table_base,
            ).is_none()
        },
{
    let ghost initial = *allocator;
    let ghost before = machine@;
    let ghost sections = image.sections@;
    let ghost steps = before.remap_steps(
        sections,
        image.boot_info_start,
        image.boot_info_end,
        &initial,
    );
    let ghost tiny = TinyAllocator::holding(
        initial.upcoming(0),
        initial.upcoming(1),
        initial.upcoming(2),
    );
    let page = match Page::from_number(REMAP_PAGE) {
        Some(page) => page,
        None => { return Err(machine); },
    };
    let mut temporary_page = TemporaryPage::new(page, allocator);
    let mut active_table = ActivePageTable::new(machine);
    let frame = match allocator.allocate_frame() {
        Some(frame) => frame,
        None => { return Err(active_table.into_machine()); },
    };
    let old_p4_page = match Page::from_number(active_table.mapper.machine().table_base().number()) {
        Some(page) => page,
        None => { return Err(active_table.into_machine()); },
    };
    let ghost table = frame@;
    let ghost paid = before.map_to(REMAP_PAGE as nat, table, WRITABLE, &tiny, 0).1;
    let mut new_table = match InactivePageTable::try_new(
        frame,
        &mut active_table,
        &mut temporary_page,
    ) {
        Some(table) => table,
        None => { return Err(active_table.into_machine()); },
    };
    proof {
        let current = temporary_page.allocator();
        steps.formatted.lemma_map_to_shift(
            REMAP_PAGE as nat,
            before.table_base,
            WRITABLE,
            &tiny,
            &current,
            paid,
            0,
        );
        steps.entered.lemma_map_image_shift(
            sections,
            image.boot_info_start,
            image.boot_info_end,
            &initial,
            allocator,
            4,
            0,
        );
        assert(table < ENTRY_FRAME_LIMIT) by {
            before.lemma_format_table(table, REMAP_PAGE as nat, &tiny);
        }
    }
    if !active_table.try_with(&mut new_table, &mut temporary_page, allocator, image) {
        return Err(active_table.into_machine());
    }
    let old_table = active_table.switch(new_table);
    if !active_table.mapper.try_unmap(old_p4_page, allocator) {
        return Err(active_table.into_machine());
    }
    Ok(active_table)
}

} // verus!
