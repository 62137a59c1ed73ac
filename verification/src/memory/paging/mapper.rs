//! Mapping, unmapping and translating pages in the table hierarchy that the
//! recursive mapping exposes.

use vstd::prelude::*;
use crate::memory::{Frame, FrameAllocator, FrameIter};
use crate::memory::paging::entry::{
    make_word, word_frame, word_huge, word_present, PageEntryFlags, ENTRY_FRAME_LIMIT, HUGE_PAGE,
    PRESENT,
};
use crate::memory::paging::machine::{Machine, MachineView, TlbFlush};
use crate::memory::paging::table::{
    child_address, is_table_address, lemma_p4_address, supply_advanced, Level4, Table, P4_ADDRESS,
};
use crate::memory::paging::{
    is_page_number, p1_index_of, p2_index_of, p3_index_of, p4_index_of, Page, PageIter,
};

verus! {

/// Address of the level-3 table on the way to page `page`.
pub open spec fn p3_address(page: nat) -> u64 {
    child_address(P4_ADDRESS, p4_index_of(page))
}

/// Address of the level-2 table on the way to page `page`.
pub open spec fn p2_address(page: nat) -> u64 {
    child_address(p3_address(page), p3_index_of(page))
}

/// Address of the level-1 table that maps page `page`.
pub open spec fn p1_address(page: nat) -> u64 {
    child_address(p2_address(page), p2_index_of(page))
}

impl MachineView {
    /// What page `page` is mapped to in the hierarchy that the recursive
    /// mapping exposes: the one whose level-4 table is `root()`.
    pub open spec fn mapping(self, page: nat) -> Option<nat> {
        self.walk(self.root(), page)
    }

    /// The level-3 table on the way to `page`, if there is one.
    pub open spec fn p3_table(self, page: nat) -> Option<nat> {
        self.next_table(self.root(), p4_index_of(page))
    }

    /// The level-2 table on the way to `page`, if there is one.
    pub open spec fn p2_table(self, page: nat) -> Option<nat> {
        match self.p3_table(page) {
            Some(p3) => self.next_table(p3, p3_index_of(page)),
            None => None,
        }
    }

    /// The level-1 table that maps `page`, if there is one.
    pub open spec fn p1_table(self, page: nat) -> Option<nat> {
        match self.p2_table(page) {
            Some(p2) => self.next_table(p2, p2_index_of(page)),
            None => None,
        }
    }

    /// Whether `frame` holds the loaded level-4 table, the level-4 table that
    /// the recursive mapping exposes, or one of the tables on the way from
    /// there to `page`.
    pub open spec fn is_table_of(self, page: nat, frame: nat) -> bool {
        ||| frame == self.table_base
        ||| frame == self.root()
        ||| self.p3_table(page) == Some(frame)
        ||| self.p2_table(page) == Some(frame)
        ||| self.p1_table(page) == Some(frame)
    }

    /// Where the loaded table is its own root, a page that is mapped through
    /// a level-1 table by an entry that is no huge page leads to its frame
    /// as a table does.
    pub proof fn lemma_page_as_table(self, page: nat)
        requires
            self.self_referencing(),
            page < crate::memory::paging::PAGE_LIMIT,
            self.p1_table(page).is_some(),
        ensures
            self.table_frame((page * 4096) as u64) == self.next_table(
                self.p1_table(page).unwrap(),
                p1_index_of(page),
            ),
    {
        crate::memory::paging::lemma_page_number_bound(page);
    }

    /// Writes to a frame that is none of the tables of `page` leave those
    /// tables, their entries and the recursive mapping as they were.
    pub proof fn lemma_writes_off_the_way(self, after: MachineView, page: nat, written: nat)
        requires
            self.recursive(),
            !self.is_table_of(page, written),
            after.table_base == self.table_base,
            forall|frame: nat, index: nat|
                frame != written && index < 512 ==> #[trigger] after.entry(frame, index)
                    == self.entry(frame, index),
        ensures
            after.recursive(),
            after.root() == self.root(),
            after.p3_table(page) == self.p3_table(page),
            after.p2_table(page) == self.p2_table(page),
            after.p1_table(page) == self.p1_table(page),
            !after.is_table_of(page, written),
            self.p1_table(page).is_some() ==> after.entry(
                self.p1_table(page).unwrap(),
                p1_index_of(page),
            ) == self.entry(self.p1_table(page).unwrap(), p1_index_of(page)),
    {
        assert(after.entry(self.table_base, 511) == self.entry(self.table_base, 511));
        assert(after.entry(self.root(), 511) == self.entry(self.root(), 511));
        assert(after.entry(self.root(), p4_index_of(page)) == self.entry(
            self.root(),
            p4_index_of(page),
        ));
        if self.p3_table(page).is_some() {
            let p3 = self.p3_table(page).unwrap();
            assert(after.entry(p3, p3_index_of(page)) == self.entry(p3, p3_index_of(page)));
            if self.p2_table(page).is_some() {
                let p2 = self.p2_table(page).unwrap();
                assert(after.entry(p2, p2_index_of(page)) == self.entry(p2, p2_index_of(page)));
                if self.p1_table(page).is_some() {
                    let p1 = self.p1_table(page).unwrap();
                    assert(after.entry(p1, p1_index_of(page)) == self.entry(
                        p1,
                        p1_index_of(page),
                    ));
                }
            }
        }
    }

    /// Whether a huge page on the way to `page` starts at a frame whose
    /// number is a multiple of the frames it stands for.
    pub open spec fn huge_frames_aligned(self, page: nat) -> bool {
        match self.p3_table(page) {
            None => true,
            Some(p3) => {
                let e3 = self.entry(p3, p3_index_of(page));
                if word_present(e3) && word_huge(e3) {
                    word_frame(e3) % (512 * 512) == 0
                } else {
                    match self.next_table(p3, p3_index_of(page)) {
                        None => true,
                        Some(p2) => {
                            let e2 = self.entry(p2, p2_index_of(page));
                            word_present(e2) && word_huge(e2) ==> word_frame(e2) % 512 == 0
                        },
                    }
                }
            },
        }
    }

    /// Under the recursive mapping the level-4 table is found at its fixed
    /// address, and each table on the way to a page at the address that the
    /// indices give.
    pub proof fn lemma_table_addresses(self, page: nat)
        requires
            self.recursive(),
        ensures
            self.table_frame(P4_ADDRESS) == Some(self.root()),
            self.table_frame(p3_address(page)) == self.p3_table(page),
            self.table_frame(p2_address(page)) == self.p2_table(page),
            self.table_frame(p1_address(page)) == self.p1_table(page),
            is_table_address(p3_address(page), 3),
            is_table_address(p2_address(page), 2),
            is_table_address(p1_address(page), 1),
    {
        lemma_p4_address();
        self.lemma_descend(P4_ADDRESS, 4, p4_index_of(page));
        self.lemma_descend(p3_address(page), 3, p3_index_of(page));
        self.lemma_descend(p2_address(page), 2, p2_index_of(page));
    }

    /// Whether entry `index` of the table at `address` leads to a table or
    /// can be made to: an entry without a table is no huge page, and the
    /// frame that `allocator` hands out after `used` others fits an entry and
    /// is none of the tables on the way to this one.
    pub open spec fn can_grow<A: FrameAllocator>(
        self,
        address: u64,
        index: nat,
        allocator: &A,
        used: nat,
    ) -> bool {
        &&& self.table_frame(address).is_some()
        &&& self.next_table(self.table_frame(address).unwrap(), index).is_none() ==> {
            &&& !word_huge(self.entry(self.table_frame(address).unwrap(), index))
            &&& allocator.upcoming(used).is_some()
            &&& allocator.upcoming(used).unwrap()@ < ENTRY_FRAME_LIMIT
            &&& !self.on_table_path(address, allocator.upcoming(used).unwrap()@)
        }
    }

    /// The machine once entry `index` of the table at `address` leads to a
    /// table, and the number of frames taken from `allocator` by then.
    pub open spec fn grow<A: FrameAllocator>(
        self,
        address: u64,
        index: nat,
        allocator: &A,
        used: nat,
    ) -> (MachineView, nat) {
        let table = self.table_frame(address).unwrap();
        if self.next_table(table, index).is_some() {
            (self, used)
        } else {
            (self.with_new_table(table, index, allocator.upcoming(used).unwrap()@), used + 1)
        }
    }

    /// The machine once all three tables on the way to `page` exist, and the
    /// number of frames taken from `allocator` by then.
    pub open spec fn with_tables_for<A: FrameAllocator>(
        self,
        page: nat,
        allocator: &A,
        used: nat,
    ) -> (MachineView, nat) {
        let (s1, u1) = self.grow(P4_ADDRESS, p4_index_of(page), allocator, used);
        let (s2, u2) = s1.grow(p3_address(page), p3_index_of(page), allocator, u1);
        s2.grow(p2_address(page), p2_index_of(page), allocator, u2)
    }

    /// Whether `page` can be mapped to `frame`: the recursive mapping is in
    /// place, the frame's address fits an entry, each table on the way exists
    /// or can be created with the frames that `allocator` hands out after
    /// `used` others, and the page's entry is unused.
    #[verifier::opaque]
    pub open spec fn can_map_to<A: FrameAllocator>(
        self,
        page: nat,
        frame: nat,
        allocator: &A,
        used: nat,
    ) -> bool {
        let (s1, u1) = self.grow(P4_ADDRESS, p4_index_of(page), allocator, used);
        let (s2, u2) = s1.grow(p3_address(page), p3_index_of(page), allocator, u1);
        let (s3, u3) = s2.grow(p2_address(page), p2_index_of(page), allocator, u2);
        &&& self.recursive()
        &&& frame < ENTRY_FRAME_LIMIT
        &&& self.can_grow(P4_ADDRESS, p4_index_of(page), allocator, used)
        &&& s1.can_grow(p3_address(page), p3_index_of(page), allocator, u1)
        &&& s2.can_grow(p2_address(page), p2_index_of(page), allocator, u2)
        &&& s3.entry(s3.table_frame(p1_address(page)).unwrap(), p1_index_of(page)) == 0
    }

    /// The machine after `page` was mapped to `frame` with the flags `flags`
    /// and the present flag, and the number of frames taken from `allocator`
    /// by then.
    #[verifier::opaque]
    pub open spec fn map_to<A: FrameAllocator>(
        self,
        page: nat,
        frame: nat,
        flags: u64,
        allocator: &A,
        used: nat,
    ) -> (MachineView, nat) {
        let (s3, u3) = self.with_tables_for(page, allocator, used);
        (
            s3.set_entry(
                s3.table_frame(p1_address(page)).unwrap(),
                p1_index_of(page),
                make_word(frame, flags | PRESENT),
            ),
            u3,
        )
    }

    /// Mapping a page keeps the recursive mapping in place and makes the page
    /// translate to the frame it was mapped to.
    pub proof fn lemma_map_to_translates<A: FrameAllocator>(
        self,
        page: nat,
        frame: nat,
        flags: u64,
        allocator: &A,
        used: nat,
    )
        requires
            self.can_map_to(page, frame, allocator, used),
            flags & !crate::memory::paging::entry::ALL_FLAGS == 0,
        ensures
            self.map_to(page, frame, flags, allocator, used).0.recursive(),
            self.map_to(page, frame, flags, allocator, used).0.root() == self.root(),
            self.map_to(page, frame, flags, allocator, used).0.table_base == self.table_base,
            self.map_to(page, frame, flags, allocator, used).0.mapping(page) == Some(frame),
    {
        self.lemma_map_to_entry(page, frame, flags, allocator, used);
    }

    /// Mapping a page leaves the page with a level-1 table whose entry for
    /// the page holds the frame and the flags, and issues no invalidation.
    pub proof fn lemma_map_to_entry<A: FrameAllocator>(
        self,
        page: nat,
        frame: nat,
        flags: u64,
        allocator: &A,
        used: nat,
    )
        requires
            self.can_map_to(page, frame, allocator, used),
            flags & !crate::memory::paging::entry::ALL_FLAGS == 0,
        ensures
            self.map_to(page, frame, flags, allocator, used).0.recursive(),
            self.map_to(page, frame, flags, allocator, used).0.root() == self.root(),
            self.map_to(page, frame, flags, allocator, used).0.table_base == self.table_base,
            self.map_to(page, frame, flags, allocator, used).0.mapping(page) == Some(frame),
            self.map_to(page, frame, flags, allocator, used).0.p1_table(page).is_some(),
            self.map_to(page, frame, flags, allocator, used).0.entry(
                self.map_to(page, frame, flags, allocator, used).0.p1_table(page).unwrap(),
                p1_index_of(page),
            ) == make_word(frame, flags | PRESENT),
            self.map_to(page, frame, flags, allocator, used).0.flushes == self.flushes,
    {
        reveal(MachineView::can_map_to);
        reveal(MachineView::map_to);
        let (s1, u1) = self.grow(P4_ADDRESS, p4_index_of(page), allocator, used);
        let (s2, u2) = s1.grow(p3_address(page), p3_index_of(page), allocator, u1);
        let (s3, u3) = s2.grow(p2_address(page), p2_index_of(page), allocator, u2);
        self.lemma_grow(P4_ADDRESS, 4, p4_index_of(page), allocator, used);
        lemma_p4_address();
        self.lemma_descend(P4_ADDRESS, 4, p4_index_of(page));
        s1.lemma_descend(P4_ADDRESS, 4, p4_index_of(page));
        s1.lemma_grow(p3_address(page), 3, p3_index_of(page), allocator, u1);
        s1.lemma_descend(p3_address(page), 3, p3_index_of(page));
        s2.lemma_descend(p3_address(page), 3, p3_index_of(page));
        s2.lemma_grow(p2_address(page), 2, p2_index_of(page), allocator, u2);
        s2.lemma_descend(p2_address(page), 2, p2_index_of(page));
        s3.lemma_descend(p2_address(page), 2, p2_index_of(page));
        s3.lemma_table_addresses(page);
        let p1 = s3.table_frame(p1_address(page)).unwrap();
        let word = make_word(frame, flags | PRESENT);
        let flag_bits = flags | PRESENT;
        assert(flag_bits & !crate::memory::paging::entry::ALL_FLAGS == 0 && flag_bits & PRESENT
            != 0) by (bit_vector)
            requires
                flags & !crate::memory::paging::entry::ALL_FLAGS == 0,
                flag_bits == flags | PRESENT,
        ;
        crate::memory::paging::entry::lemma_make_word(frame as u64, flag_bits);
        crate::memory::paging::entry::lemma_word_frame_bound(0);
        assert(s3.next_table(p1, p1_index_of(page)).is_none());
        s3.lemma_set_entry_keeps_tables(p1, p1_index_of(page), word);
        let done = s3.set_entry(p1, p1_index_of(page), word);
        done.lemma_table_addresses(page);
        assert(done.p1_table(page) == Some(p1));
        assert(done.entry(p1, p1_index_of(page)) == word);
    }

    /// Making sure of a table keeps the recursive mapping and the table it
    /// was asked of, and the entry then leads to a table.
    pub proof fn lemma_grow<A: FrameAllocator>(
        self,
        address: u64,
        depth: nat,
        index: nat,
        allocator: &A,
        used: nat,
    )
        requires
            self.recursive(),
            is_table_address(address, depth),
            2 <= depth <= 4,
            index < 512,
            self.can_grow(address, index, allocator, used),
        ensures
            self.grow(address, index, allocator, used).0.recursive(),
            self.grow(address, index, allocator, used).0.root() == self.root(),
            self.grow(address, index, allocator, used).0.table_base == self.table_base,
            self.grow(address, index, allocator, used).0.table_frame(address) == self.table_frame(
                address,
            ),
            self.grow(address, index, allocator, used).0.next_table(
                self.table_frame(address).unwrap(),
                index,
            ).is_some(),
    {
        let table = self.table_frame(address).unwrap();
        if self.next_table(table, index).is_none() {
            let fresh = allocator.upcoming(used).unwrap()@;
            let word = make_word(fresh, PRESENT | crate::memory::paging::entry::WRITABLE);
            crate::memory::paging::entry::lemma_flag_bits();
            crate::memory::paging::entry::lemma_make_word(
                fresh as u64,
                PRESENT | crate::memory::paging::entry::WRITABLE,
            );
            self.lemma_descend(address, depth, index);
            self.lemma_set_entry_keeps_tables(table, index, word);
            let linked = self.set_entry(table, index, word);
            linked.lemma_descend(address, depth, index);
            linked.lemma_zero_table_entries(fresh);
            let cleared = linked.zero_table(fresh);
            assert(cleared.next_table(table, index) == Some(fresh));
        }
    }
}

impl MachineView {
    /// The machine after the entry of `page` was cleared and the page's
    /// translation invalidated.
    pub open spec fn unmap(self, page: nat) -> MachineView {
        self.set_entry(self.p1_table(page).unwrap(), p1_index_of(page), 0).flushed(
            TlbFlush::Page((page * 4096) as u64),
        )
    }

    /// Whether `page` is mapped by a present entry of a level-1 table.
    pub open spec fn is_mapped_by_entry(self, page: nat) -> bool {
        self.p1_table(page).is_some() && word_present(
            self.entry(self.p1_table(page).unwrap(), p1_index_of(page)),
        )
    }

    /// Whether entry `index` of table `frame` carries the recursive mapping.
    pub open spec fn is_recursive_entry(self, frame: nat, index: nat) -> bool {
        index == 511 && (frame == self.table_base || frame == self.root())
    }

    /// Unmapping a page whose entry does not carry the recursive mapping
    /// keeps that mapping in place, and the page translates to nothing.
    pub proof fn lemma_unmap_untranslates(self, page: nat)
        requires
            self.recursive(),
            self.p1_table(page).is_some(),
            !self.is_recursive_entry(self.p1_table(page).unwrap(), p1_index_of(page)),
        ensures
            self.unmap(page).recursive(),
            self.unmap(page).root() == self.root(),
            self.unmap(page).mapping(page).is_none(),
    {
        crate::memory::paging::entry::lemma_word_frame_bound(0);
        let p1 = self.p1_table(page).unwrap();
        let cleared = self.set_entry(p1, p1_index_of(page), 0);
        assert(cleared.entry(p1, p1_index_of(page)) == 0);
        assert(self.table_base * 512 + 511 != p1 * 512 + p1_index_of(page));
        assert(self.root() * 512 + 511 != p1 * 512 + p1_index_of(page));
    }

    /// Only the frames that an allocator hands out from a point on matter:
    /// an allocator that is `count` allocations ahead of another makes sure
    /// of a table as the other does after `count` more.
    pub proof fn lemma_grow_shift<A: FrameAllocator>(
        self,
        address: u64,
        index: nat,
        behind: &A,
        ahead: &A,
        count: nat,
        used: nat,
    )
        requires
            supply_advanced(behind, ahead, count),
        ensures
            self.can_grow(address, index, ahead, used) == self.can_grow(
                address,
                index,
                behind,
                used + count,
            ),
            self.grow(address, index, ahead, used).0 == self.grow(
                address,
                index,
                behind,
                used + count,
            ).0,
            self.grow(address, index, ahead, used).1 + count == self.grow(
                address,
                index,
                behind,
                used + count,
            ).1,
    {
        assert(ahead.upcoming(used) == behind.upcoming(used + count));
    }

    /// An allocator that is `count` allocations ahead of another maps a page
    /// as the other does after `count` more.
    pub proof fn lemma_map_to_shift<A: FrameAllocator>(
        self,
        page: nat,
        frame: nat,
        flags: u64,
        behind: &A,
        ahead: &A,
        count: nat,
        used: nat,
    )
        requires
            supply_advanced(behind, ahead, count),
        ensures
            self.can_map_to(page, frame, ahead, used) == self.can_map_to(
                page,
                frame,
                behind,
                used + count,
            ),
            self.map_to(page, frame, flags, ahead, used).0 == self.map_to(
                page,
                frame,
                flags,
                behind,
                used + count,
            ).0,
            self.map_to(page, frame, flags, ahead, used).1 + count == self.map_to(
                page,
                frame,
                flags,
                behind,
                used + count,
            ).1,
    {
        reveal(MachineView::can_map_to);
        reveal(MachineView::map_to);
        let (s1, u1) = self.grow(P4_ADDRESS, p4_index_of(page), ahead, used);
        let (s2, u2) = s1.grow(p3_address(page), p3_index_of(page), ahead, u1);
        self.lemma_grow_shift(P4_ADDRESS, p4_index_of(page), behind, ahead, count, used);
        s1.lemma_grow_shift(p3_address(page), p3_index_of(page), behind, ahead, count, u1);
        s2.lemma_grow_shift(p2_address(page), p2_index_of(page), behind, ahead, count, u2);
    }
}

/// The table hierarchy that the recursive mapping exposes, together with the
/// machine it lives in.
pub struct Mapper {
    machine: Machine,
}

impl View for Mapper {
    type V = MachineView;

    closed spec fn view(&self) -> MachineView {
        self.machine@
    }
}

impl Mapper {
    /// A mapper for the tables of `machine`.
    pub fn new(machine: Machine) -> (mapper: Mapper)
        ensures
            mapper@ == machine@,
    {
        Mapper { machine }
    }

    /// The machine that the mapper works on.
    pub fn machine(&self) -> (machine: &Machine)
        ensures
            machine@ == self@,
    {
        &self.machine
    }

    /// The machine that the mapper works on, to change it.
    pub fn machine_mut(&mut self) -> (machine: &mut Machine)
        ensures
            machine@ == old(self)@,
            final(self)@ == final(machine)@,
    {
        &mut self.machine
    }

    /// Gives the machine back.
    pub fn into_machine(self) -> (machine: Machine)
        ensures
            machine@ == self@,
    {
        self.machine
    }

    /// The level-4 table.
    pub fn p4(&self) -> (table: Table<Level4>)
        ensures
            table.address() == P4_ADDRESS,
    {
        proof {
            lemma_p4_address();
        }
        Table::at(P4_ADDRESS)
    }

    /// The frame that `page` is mapped to, if it is mapped. A huge page at
    /// level 3 or 2 covers the page with the frame that lies as far into the
    /// huge page as the page's lower indices say; its first frame has to be
    /// aligned to the huge page's size.
    pub fn translate_page(&self, page: Page) -> (frame: Option<Frame>)
        requires
            self@.recursive(),
            self@.huge_frames_aligned(page@),
        ensures
            frame.is_some() == self@.mapping(page@).is_some(),
            frame.is_some() ==> frame.unwrap()@ == self@.mapping(page@).unwrap(),
    {
        proof {
            self@.lemma_table_addresses(page@);
        }
        let p3 = match self.p4().next_table(&self.machine, page.p4_index()) {
            Some(p3) => p3,
            None => { return None; },
        };
        let p2 = p3.next_table(&self.machine, page.p3_index());
        let p1 = match &p2 {
            Some(p2) => p2.next_table(&self.machine, page.p2_index()),
            None => None,
        };
        let mapped = match &p1 {
            Some(p1) => p1.entry(&self.machine, page.p1_index()).pointed_frame(),
            None => None,
        };
        if mapped.is_some() {
            return mapped;
        }
        let p3_entry = p3.entry(&self.machine, page.p3_index());
        match p3_entry.pointed_frame() {
            Some(start_frame) => {
                if p3_entry.flags().contains_bits(HUGE_PAGE) {
                    let number = start_frame.number() + (page.p2_index() as u64) * 512
                        + page.p1_index() as u64;
                    return Frame::from_number(number);
                }
            },
            None => {},
        }
        match &p2 {
            Some(p2) => {
                let p2_entry = p2.entry(&self.machine, page.p2_index());
                match p2_entry.pointed_frame() {
                    Some(start_frame) => {
                        if p2_entry.flags().contains_bits(HUGE_PAGE) {
                            let number = start_frame.number() + page.p1_index() as u64;
                            return Frame::from_number(number);
                        }
                    },
                    None => {},
                }
            },
            None => {},
        }
        None
    }

    /// The physical address that the virtual address `vaddr` translates to:
    /// the same offset into the frame that its page is mapped to.
    pub fn translate(&self, vaddr: u64) -> (paddr: Option<u64>)
        requires
            crate::memory::paging::is_canonical(vaddr),
            self@.recursive(),
            self@.huge_frames_aligned(vaddr as nat / 4096),
        ensures
            paddr.is_some() == self@.mapping(vaddr as nat / 4096).is_some(),
            paddr.is_some() ==> paddr.unwrap() == self@.mapping(vaddr as nat / 4096).unwrap()
                * 4096 + vaddr % 4096,
    {
        let offset = vaddr % 4096;
        match self.translate_page(Page::containing_address(vaddr)) {
            Some(frame) => Some(frame.number() * 4096 + offset),
            None => None,
        }
    }

    /// Maps `page` to `frame` with the flags `flags` and the present flag.
    /// Tables that are missing on the way are created with frames from
    /// `allocator`. The page's entry has to be unused.
    ///
    /// In a tree this goes through where nothing stands in the page's way
    /// and three fresh frames are at hand, and it leaves every other page
    /// alone: see `MachineView::lemma_map_to_in_tree`.
    pub fn map_to<A: FrameAllocator>(
        &mut self,
        page: Page,
        frame: Frame,
        flags: PageEntryFlags,
        allocator: &mut A,
    )
        requires
            old(self)@.can_map_to(page@, frame@, old(allocator), 0),
        ensures
            final(self)@ == old(self)@.map_to(page@, frame@, flags@, old(allocator), 0).0,
            supply_advanced(
                old(allocator),
                final(allocator),
                old(self)@.map_to(page@, frame@, flags@, old(allocator), 0).1,
            ),
            final(self)@.recursive(),
            final(self)@.mapping(page@) == Some(frame@),
    {
        self.try_map_to(page, frame, flags, allocator);
    }

    /// Maps `page` to `frame` as `map_to` does, if that can be done, and
    /// says whether it was: it was not if the recursive mapping is not in
    /// place, the frame's address does not fit an entry, a table on the way
    /// can neither be found nor made, or the page's entry is in use. Where
    /// it was not, tables may have been made on the way.
    pub fn try_map_to<A: FrameAllocator>(
        &mut self,
        page: Page,
        frame: Frame,
        flags: PageEntryFlags,
        allocator: &mut A,
    ) -> (mapped: bool)
        ensures
            mapped == old(self)@.can_map_to(page@, frame@, old(allocator), 0),
            mapped ==> {
                &&& final(self)@ == old(self)@.map_to(page@, frame@, flags@, old(allocator), 0).0
                &&& supply_advanced(
                    old(allocator),
                    final(allocator),
                    old(self)@.map_to(page@, frame@, flags@, old(allocator), 0).1,
                )
                &&& final(self)@.recursive()
                &&& final(self)@.mapping(page@) == Some(frame@)
            },
            final(self)@.table_base == old(self)@.table_base,
    {
        let ghost number = frame@;
        let ghost start = self@;
        let ghost supply = *allocator;
        let flag_bits = flags.bits();
        proof {
            reveal(MachineView::can_map_to);
            reveal(MachineView::map_to);
            lemma_p4_address();
            if start.can_map_to(page@, number, &supply, 0) {
                start.lemma_map_to_translates(page@, number, flags@, &supply, 0);
            }
        }
        if !self.machine.is_recursive() || frame.number() >= ENTRY_FRAME_LIMIT {
            return false;
        }
        let p3 = match self.p4().try_next_table_create(
            &mut self.machine,
            page.p4_index(),
            allocator,
        ) {
            Some(table) => table,
            None => { return false; },
        };
        let ghost (s1, u1) = start.grow(P4_ADDRESS, p4_index_of(page@), &supply, 0);
        proof {
            s1.lemma_grow_shift(
                p3_address(page@),
                p3_index_of(page@),
                &supply,
                allocator,
                u1,
                0,
            );
        }
        let p2 = match p3.try_next_table_create(&mut self.machine, page.p3_index(), allocator) {
            Some(table) => table,
            None => { return false; },
        };
        let ghost (s2, u2) = s1.grow(p3_address(page@), p3_index_of(page@), &supply, u1);
        proof {
            s2.lemma_grow_shift(
                p2_address(page@),
                p2_index_of(page@),
                &supply,
                allocator,
                u2,
                0,
            );
        }
        let p1 = match p2.try_next_table_create(&mut self.machine, page.p2_index(), allocator) {
            Some(table) => table,
            None => { return false; },
        };
        let mut entry = p1.entry(&self.machine, page.p1_index());
        if !entry.is_unused() {
            return false;
        }
        entry.set(frame, flags.union(PageEntryFlags::from_bits_truncate(PRESENT)));
        proof {
            assert((flag_bits | (PRESENT & crate::memory::paging::entry::ALL_FLAGS)) == flag_bits
                | PRESENT) by (bit_vector);
        }
        p1.set_entry(&mut self.machine, page.p1_index(), entry);
        true
    }

    /// Maps `page` to the next frame that `allocator` hands out.
    pub fn map<A: FrameAllocator>(&mut self, page: Page, flags: PageEntryFlags, allocator: &mut A)
        requires
            old(self)@.can_map(page@, old(allocator), 0),
        ensures
            final(self)@ == old(self)@.map(page@, flags@, old(allocator), 0).0,
            supply_advanced(
                old(allocator),
                final(allocator),
                old(self)@.map(page@, flags@, old(allocator), 0).1,
            ),
            final(self)@.recursive(),
            final(self)@.mapping(page@) == Some(old(allocator).upcoming(0).unwrap()@),
    {
        self.try_map(page, flags, allocator);
    }

    /// Maps `page` to the next frame that `allocator` hands out, if that can
    /// be done, and says whether it was: it was not if the allocator has no
    /// frame or the page cannot be mapped to the frame.
    pub fn try_map<A: FrameAllocator>(
        &mut self,
        page: Page,
        flags: PageEntryFlags,
        allocator: &mut A,
    ) -> (mapped: bool)
        ensures
            mapped == old(self)@.can_map(page@, old(allocator), 0),
            mapped ==> {
                &&& final(self)@ == old(self)@.map(page@, flags@, old(allocator), 0).0
                &&& supply_advanced(
                    old(allocator),
                    final(allocator),
                    old(self)@.map(page@, flags@, old(allocator), 0).1,
                )
                &&& final(self)@.recursive()
                &&& final(self)@.mapping(page@) == Some(old(allocator).upcoming(0).unwrap()@)
            },
            final(self)@.table_base == old(self)@.table_base,
    {
        let ghost before = *allocator;
        let frame = match allocator.allocate_frame() {
            Some(frame) => frame,
            None => { return false; },
        };
        proof {
            self@.lemma_map_to_shift(page@, frame@, flags@, &before, allocator, 1, 0);
        }
        self.try_map_to(page, frame, flags, allocator)
    }

    /// Maps the page at the address of `frame` to `frame`.
    pub fn identity_map<A: FrameAllocator>(
        &mut self,
        frame: Frame,
        flags: PageEntryFlags,
        allocator: &mut A,
    )
        requires
            is_page_number(frame@),
            old(self)@.can_map_to(frame@, frame@, old(allocator), 0),
        ensures
            final(self)@ == old(self)@.map_to(frame@, frame@, flags@, old(allocator), 0).0,
            supply_advanced(
                old(allocator),
                final(allocator),
                old(self)@.map_to(frame@, frame@, flags@, old(allocator), 0).1,
            ),
            final(self)@.recursive(),
            final(self)@.mapping(frame@) == Some(frame@),
    {
        self.try_identity_map(frame, flags, allocator);
    }

    /// Maps the page at the address of `frame` to `frame`, if that can be
    /// done, and says whether it was: it was not if no page has the number
    /// of the frame or the page cannot be mapped to the frame.
    pub fn try_identity_map<A: FrameAllocator>(
        &mut self,
        frame: Frame,
        flags: PageEntryFlags,
        allocator: &mut A,
    ) -> (mapped: bool)
        ensures
            mapped == (is_page_number(frame@) && old(self)@.can_map_to(
                frame@,
                frame@,
                old(allocator),
                0,
            )),
            mapped ==> {
                &&& final(self)@ == old(self)@.map_to(
                    frame@,
                    frame@,
                    flags@,
                    old(allocator),
                    0,
                ).0
                &&& supply_advanced(
                    old(allocator),
                    final(allocator),
                    old(self)@.map_to(frame@, frame@, flags@, old(allocator), 0).1,
                )
                &&& final(self)@.recursive()
                &&& final(self)@.mapping(frame@) == Some(frame@)
            },
            final(self)@.table_base == old(self)@.table_base,
    {
        match Page::from_number(frame.number()) {
            Some(page) => self.try_map_to(page, frame, flags, allocator),
            None => false,
        }
    }

    /// Removes the mapping of `page` and invalidates its translation. The
    /// page has to be mapped through a level-1 table. The frame it was
    /// mapped to is not handed to `allocator`.
    pub fn unmap<A: FrameAllocator>(&mut self, page: Page, allocator: &mut A)
        requires
            old(self)@.recursive(),
            old(self)@.p1_table(page@).is_some(),
            word_present(
                old(self)@.entry(old(self)@.p1_table(page@).unwrap(), p1_index_of(page@)),
            ),
        ensures
            final(self)@ == old(self)@.unmap(page@),
            *final(allocator) == *old(allocator),
            !old(self)@.is_recursive_entry(old(self)@.p1_table(page@).unwrap(), p1_index_of(page@))
                ==> final(self)@.recursive() && final(self)@.mapping(page@).is_none(),
    {
        self.try_unmap(page, allocator);
    }

    /// Removes the mapping of `page` as `unmap` does, if that can be done,
    /// and says whether it was: it was not, with nothing changed, if the
    /// recursive mapping is not in place or the page is not mapped by a
    /// present entry of a level-1 table.
    pub fn try_unmap<A: FrameAllocator>(&mut self, page: Page, allocator: &mut A) -> (unmapped:
        bool)
        ensures
            unmapped == (old(self)@.recursive() && old(self)@.is_mapped_by_entry(page@)),
            unmapped ==> final(self)@ == old(self)@.unmap(page@),
            !unmapped ==> final(self)@ == old(self)@,
            *final(allocator) == *old(allocator),
            unmapped && !old(self)@.is_recursive_entry(
                old(self)@.p1_table(page@).unwrap(),
                p1_index_of(page@),
            ) ==> final(self)@.recursive() && final(self)@.mapping(page@).is_none(),
    {
        if !self.machine.is_recursive() {
            return false;
        }
        proof {
            self@.lemma_table_addresses(page@);
            if self@.p1_table(page@).is_some() && !self@.is_recursive_entry(
                self@.p1_table(page@).unwrap(),
                p1_index_of(page@),
            ) {
                self@.lemma_unmap_untranslates(page@);
            }
        }
        let p3 = match self.p4().next_table(&self.machine, page.p4_index()) {
            Some(table) => table,
            None => { return false; },
        };
        let p2 = match p3.next_table(&self.machine, page.p3_index()) {
            Some(table) => table,
            None => { return false; },
        };
        let p1 = match p2.next_table(&self.machine, page.p2_index()) {
            Some(table) => table,
            None => { return false; },
        };
        let mut entry = p1.entry(&self.machine, page.p1_index());
        if !entry.flags().contains_bits(PRESENT) {
            return false;
        }
        entry.set_unused();
        p1.set_entry(&mut self.machine, page.p1_index(), entry);
        self.machine.flush(page.start_address());
        true
    }

    /// Whether `frame` holds the loaded level-4 table or one of the tables
    /// on the way to `page`.
    pub fn is_table_of(&self, page: Page, frame: &Frame) -> (held: bool)
        requires
            self@.recursive(),
        ensures
            held == self@.is_table_of(page@, frame@),
    {
        proof {
            self@.lemma_table_addresses(page@);
        }
        let number = frame.number();
        if number == self.machine.table_base().number() {
            return true;
        }
        match self.machine.table_frame(P4_ADDRESS) {
            Some(root) => {
                if root.number() == number {
                    return true;
                }
            },
            None => {},
        }
        let p3 = match self.p4().next_table(&self.machine, page.p4_index()) {
            Some(table) => table,
            None => { return false; },
        };
        match self.machine.table_frame(p3.start_address()) {
            Some(table) => {
                if table.number() == number {
                    return true;
                }
            },
            None => {},
        }
        let p2 = match p3.next_table(&self.machine, page.p3_index()) {
            Some(table) => table,
            None => { return false; },
        };
        match self.machine.table_frame(p2.start_address()) {
            Some(table) => {
                if table.number() == number {
                    return true;
                }
            },
            None => {},
        }
        let p1 = match p2.next_table(&self.machine, page.p2_index()) {
            Some(table) => table,
            None => { return false; },
        };
        match self.machine.table_frame(p1.start_address()) {
            Some(table) => table.number() == number,
            None => false,
        }
    }

    /// The frame of the level-1 table that maps `page`, if there is one.
    pub fn p1_table_frame(&self, page: Page) -> (frame: Option<Frame>)
        requires
            self@.recursive(),
        ensures
            frame.is_some() == self@.p1_table(page@).is_some(),
            frame.is_some() ==> frame.unwrap()@ == self@.p1_table(page@).unwrap(),
    {
        proof {
            self@.lemma_table_addresses(page@);
        }
        let p3 = match self.p4().next_table(&self.machine, page.p4_index()) {
            Some(table) => table,
            None => { return None; },
        };
        let p2 = match p3.next_table(&self.machine, page.p3_index()) {
            Some(table) => table,
            None => { return None; },
        };
        match p2.next_table(&self.machine, page.p2_index()) {
            Some(p1) => self.machine.table_frame(p1.start_address()),
            None => None,
        }
    }

    /// Whether `page` is mapped, by an entry of a level-1 table or by a
    /// huge page.
    pub fn is_mapped(&self, page: Page) -> (mapped: bool)
        requires
            self@.recursive(),
        ensures
            mapped == self@.mapping(page@).is_some(),
    {
        proof {
            self@.lemma_table_addresses(page@);
        }
        let p3 = match self.p4().next_table(&self.machine, page.p4_index()) {
            Some(table) => table,
            None => { return false; },
        };
        let p3_flags = p3.entry(&self.machine, page.p3_index()).flags();
        if p3_flags.contains_bits(PRESENT) && p3_flags.contains_bits(HUGE_PAGE) {
            return true;
        }
        let p2 = match p3.next_table(&self.machine, page.p3_index()) {
            Some(table) => table,
            None => { return false; },
        };
        let p2_flags = p2.entry(&self.machine, page.p2_index()).flags();
        if p2_flags.contains_bits(PRESENT) && p2_flags.contains_bits(HUGE_PAGE) {
            return true;
        }
        match p2.next_table(&self.machine, page.p2_index()) {
            Some(p1) => p1.entry(&self.machine, page.p1_index()).flags().contains_bits(PRESENT),
            None => false,
        }
    }
}

impl MachineView {
    /// Whether `page` can be mapped to the frame that `allocator` hands out
    /// after `used` others, with the frames after that one for the tables.
    pub open spec fn can_map<A: FrameAllocator>(self, page: nat, allocator: &A, used: nat) -> bool {
        &&& allocator.upcoming(used).is_some()
        &&& self.can_map_to(page, allocator.upcoming(used).unwrap()@, allocator, used + 1)
    }

    /// The machine after `page` was mapped to the frame that `allocator`
    /// hands out after `used` others, and the number of frames taken by then.
    pub open spec fn map<A: FrameAllocator>(
        self,
        page: nat,
        flags: u64,
        allocator: &A,
        used: nat,
    ) -> (MachineView, nat) {
        self.map_to(page, allocator.upcoming(used).unwrap()@, flags, allocator, used + 1)
    }
}

impl MachineView {
    /// An allocator that is `count` allocations ahead of another maps a page
    /// to its next frame as the other does after `count` more.
    pub proof fn lemma_map_shift<A: FrameAllocator>(
        self,
        page: nat,
        flags: u64,
        behind: &A,
        ahead: &A,
        count: nat,
        used: nat,
    )
        requires
            supply_advanced(behind, ahead, count),
        ensures
            self.can_map(page, ahead, used) == self.can_map(page, behind, used + count),
            self.map(page, flags, ahead, used).0 == self.map(page, flags, behind, used + count).0,
            self.map(page, flags, ahead, used).1 + count == self.map(
                page,
                flags,
                behind,
                used + count,
            ).1,
    {
        assert(ahead.upcoming(used) == behind.upcoming(used + count));
        self.lemma_map_to_shift(
            page,
            ahead.upcoming(used).unwrap()@,
            flags,
            behind,
            ahead,
            count,
            used + 1,
        );
    }

    /// Whether the `count` pages from `start` on can be mapped one after the
    /// other, each to the next frame of `allocator`.
    pub open spec fn can_map_range<A: FrameAllocator>(
        self,
        start: nat,
        count: nat,
        flags: u64,
        allocator: &A,
        used: nat,
    ) -> bool
        decreases count,
    {
        count > 0 ==> {
            &&& self.can_map(start, allocator, used)
            &&& self.map(start, flags, allocator, used).0.can_map_range(
                start + 1,
                (count - 1) as nat,
                flags,
                allocator,
                self.map(start, flags, allocator, used).1,
            )
        }
    }

    /// The machine after the `count` pages from `start` on were mapped one
    /// after the other, and the number of frames taken by then.
    pub open spec fn map_range<A: FrameAllocator>(
        self,
        start: nat,
        count: nat,
        flags: u64,
        allocator: &A,
        used: nat,
    ) -> (MachineView, nat)
        decreases count,
    {
        if count == 0 {
            (self, used)
        } else {
            let (next, taken) = self.map(start, flags, allocator, used);
            next.map_range(start + 1, (count - 1) as nat, flags, allocator, taken)
        }
    }

    /// Whether the `count` frames from `start` on can be mapped one after the
    /// other, each at its own address.
    pub open spec fn can_identity_map_range<A: FrameAllocator>(
        self,
        start: nat,
        count: nat,
        flags: u64,
        allocator: &A,
        used: nat,
    ) -> bool
        decreases count,
    {
        count > 0 ==> {
            &&& is_page_number(start)
            &&& self.can_map_to(start, start, allocator, used)
            &&& self.map_to(start, start, flags, allocator, used).0.can_identity_map_range(
                start + 1,
                (count - 1) as nat,
                flags,
                allocator,
                self.map_to(start, start, flags, allocator, used).1,
            )
        }
    }

    /// The machine after the `count` frames from `start` on were mapped one
    /// after the other, each at its own address, and the number of frames
    /// taken by then.
    pub open spec fn identity_map_range<A: FrameAllocator>(
        self,
        start: nat,
        count: nat,
        flags: u64,
        allocator: &A,
        used: nat,
    ) -> (MachineView, nat)
        decreases count,
    {
        if count == 0 {
            (self, used)
        } else {
            let (next, taken) = self.map_to(start, start, flags, allocator, used);
            next.identity_map_range(start + 1, (count - 1) as nat, flags, allocator, taken)
        }
    }
}

impl Mapper {
    /// Maps each page of `pages`, lowest first, to the next frame that
    /// `allocator` hands out.
    ///
    /// In a tree this goes through where nothing stands in the way of the
    /// pages and four fresh frames are at hand for each: see
    /// `MachineView::lemma_map_range_in_tree`.
    pub fn map_range<A: FrameAllocator>(
        &mut self,
        pages: PageIter,
        flags: PageEntryFlags,
        allocator: &mut A,
    )
        requires
            old(self)@.can_map_range(
                pages.start(),
                pages.remaining(),
                flags@,
                old(allocator),
                0,
            ),
        ensures
            final(self)@ == old(self)@.map_range(
                pages.start(),
                pages.remaining(),
                flags@,
                old(allocator),
                0,
            ).0,
            supply_advanced(
                old(allocator),
                final(allocator),
                old(self)@.map_range(
                    pages.start(),
                    pages.remaining(),
                    flags@,
                    old(allocator),
                    0,
                ).1,
            ),
            old(self)@.recursive() ==> final(self)@.recursive(),
    {
        self.try_map_range(pages, flags, allocator);
    }

    /// Maps each page of `pages` as `map_range` does, if that can be done,
    /// and says whether it was. It stops at the first page that cannot be
    /// mapped, with the pages below it mapped.
    pub fn try_map_range<A: FrameAllocator>(
        &mut self,
        pages: PageIter,
        flags: PageEntryFlags,
        allocator: &mut A,
    ) -> (mapped: bool)
        ensures
            mapped == old(self)@.can_map_range(
                pages.start(),
                pages.remaining(),
                flags@,
                old(allocator),
                0,
            ),
            mapped ==> {
                &&& final(self)@ == old(self)@.map_range(
                    pages.start(),
                    pages.remaining(),
                    flags@,
                    old(allocator),
                    0,
                ).0
                &&& supply_advanced(
                    old(allocator),
                    final(allocator),
                    old(self)@.map_range(
                        pages.start(),
                        pages.remaining(),
                        flags@,
                        old(allocator),
                        0,
                    ).1,
                )
                &&& old(self)@.recursive() ==> final(self)@.recursive()
            },
            final(self)@.table_base == old(self)@.table_base,
    {
        let mut rest = pages;
        let ghost initial = *allocator;
        let ghost target = self@.map_range(pages.start(), pages.remaining(), flags@, &initial, 0);
        let ghost mut used: nat = 0;
        while rest.len() > 0
            invariant
                initial == *old(allocator),
                old(self)@.can_map_range(
                    pages.start(),
                    pages.remaining(),
                    flags@,
                    old(allocator),
                    0,
                ) == self@.can_map_range(rest.start(), rest.remaining(), flags@, &initial, used),
                self@.map_range(rest.start(), rest.remaining(), flags@, &initial, used)
                    == target,
                target == old(self)@.map_range(
                    pages.start(),
                    pages.remaining(),
                    flags@,
                    old(allocator),
                    0,
                ),
                supply_advanced(&initial, allocator, used),
                old(self)@.recursive() ==> self@.recursive(),
                self@.table_base == old(self)@.table_base,
            decreases rest.remaining(),
        {
            let ghost start = rest.start();
            match rest.next() {
                Some(page) => {
                    proof {
                        self@.lemma_map_shift(page@, flags@, &initial, allocator, used, 0);
                        used = self@.map(start, flags@, &initial, used).1;
                    }
                    if !self.try_map(page, flags, allocator) {
                        return false;
                    }
                },
                None => {},
            }
        }
        true
    }

    /// Maps each frame of `frames`, lowest first, at its own address.
    ///
    /// In a tree this goes through where nothing stands in the way of the
    /// pages and three fresh frames are at hand for each: see
    /// `MachineView::lemma_identity_map_range_in_tree`.
    pub fn identity_map_range<A: FrameAllocator>(
        &mut self,
        frames: FrameIter,
        flags: PageEntryFlags,
        allocator: &mut A,
    )
        requires
            old(self)@.can_identity_map_range(
                frames.start(),
                frames.remaining(),
                flags@,
                old(allocator),
                0,
            ),
        ensures
            final(self)@ == old(self)@.identity_map_range(
                frames.start(),
                frames.remaining(),
                flags@,
                old(allocator),
                0,
            ).0,
            supply_advanced(
                old(allocator),
                final(allocator),
                old(self)@.identity_map_range(
                    frames.start(),
                    frames.remaining(),
                    flags@,
                    old(allocator),
                    0,
                ).1,
            ),
            old(self)@.recursive() ==> final(self)@.recursive(),
    {
        self.try_identity_map_range(frames, flags, allocator);
    }

    /// Maps each frame of `frames` as `identity_map_range` does, if that can
    /// be done, and says whether it was. It stops at the first frame that
    /// cannot be mapped, with the frames below it mapped.
    pub fn try_identity_map_range<A: FrameAllocator>(
        &mut self,
        frames: FrameIter,
        flags: PageEntryFlags,
        allocator: &mut A,
    ) -> (mapped: bool)
        ensures
            mapped == old(self)@.can_identity_map_range(
                frames.start(),
                frames.remaining(),
                flags@,
                old(allocator),
                0,
            ),
            mapped ==> {
                &&& final(self)@ == old(self)@.identity_map_range(
                    frames.start(),
                    frames.remaining(),
                    flags@,
                    old(allocator),
                    0,
                ).0
                &&& supply_advanced(
                    old(allocator),
                    final(allocator),
                    old(self)@.identity_map_range(
                        frames.start(),
                        frames.remaining(),
                        flags@,
                        old(allocator),
                        0,
                    ).1,
                )
                &&& old(self)@.recursive() ==> final(self)@.recursive()
            },
            final(self)@.table_base == old(self)@.table_base,
    {
        let mut rest = frames;
        let ghost initial = *allocator;
        let ghost target = self@.identity_map_range(
            frames.start(),
            frames.remaining(),
            flags@,
            &initial,
            0,
        );
        let ghost mut used: nat = 0;
        while rest.len() > 0
            invariant
                initial == *old(allocator),
                old(self)@.can_identity_map_range(
                    frames.start(),
                    frames.remaining(),
                    flags@,
                    old(allocator),
                    0,
                ) == self@.can_identity_map_range(
                    rest.start(),
                    rest.remaining(),
                    flags@,
                    &initial,
                    used,
                ),
                self@.identity_map_range(
                    rest.start(),
                    rest.remaining(),
                    flags@,
                    &initial,
                    used,
                ) == target,
                target == old(self)@.identity_map_range(
                    frames.start(),
                    frames.remaining(),
                    flags@,
                    old(allocator),
                    0,
                ),
                supply_advanced(&initial, allocator, used),
                old(self)@.recursive() ==> self@.recursive(),
                self@.table_base == old(self)@.table_base,
            decreases rest.remaining(),
        {
            let ghost start = rest.start();
            match rest.next() {
                Some(frame) => {
                    proof {
                        self@.lemma_map_to_shift(
                            start,
                            start,
                            flags@,
                            &initial,
                            allocator,
                            used,
                            0,
                        );
                        used = self@.map_to(start, start, flags@, &initial, used).1;
                    }
                    if !self.try_identity_map(frame, flags, allocator) {
                        return false;
                    }
                },
                None => {},
            }
        }
        true
    }
}

impl MachineView {
    /// An allocator that is `count` allocations ahead of another maps a run
    /// of frames as the other does after `count` more.
    pub proof fn lemma_identity_map_range_shift<A: FrameAllocator>(
        self,
        start: nat,
        frames: nat,
        flags: u64,
        behind: &A,
        ahead: &A,
        count: nat,
        used: nat,
    )
        requires
            supply_advanced(behind, ahead, count),
        ensures
            self.can_identity_map_range(start, frames, flags, ahead, used)
                == self.can_identity_map_range(start, frames, flags, behind, used + count),
            self.identity_map_range(start, frames, flags, ahead, used).0
                == self.identity_map_range(start, frames, flags, behind, used + count).0,
            self.identity_map_range(start, frames, flags, ahead, used).1 + count
                == self.identity_map_range(start, frames, flags, behind, used + count).1,
        decreases frames,
    {
        if frames > 0 {
            self.lemma_map_to_shift(start, start, flags, behind, ahead, count, used);
            let (next, taken) = self.map_to(start, start, flags, ahead, used);
            next.lemma_identity_map_range_shift(
                start + 1,
                (frames - 1) as nat,
                flags,
                behind,
                ahead,
                count,
                taken,
            );
        }
    }

    /// An allocator that is `count` allocations ahead of another maps a run
    /// of pages as the other does after `count` more.
    pub proof fn lemma_map_range_shift<A: FrameAllocator>(
        self,
        start: nat,
        pages: nat,
        flags: u64,
        behind: &A,
        ahead: &A,
        count: nat,
        used: nat,
    )
        requires
            supply_advanced(behind, ahead, count),
        ensures
            self.can_map_range(start, pages, flags, ahead, used) == self.can_map_range(
                start,
                pages,
                flags,
                behind,
                used + count,
            ),
            self.map_range(start, pages, flags, ahead, used).0 == self.map_range(
                start,
                pages,
                flags,
                behind,
                used + count,
            ).0,
            self.map_range(start, pages, flags, ahead, used).1 + count == self.map_range(
                start,
                pages,
                flags,
                behind,
                used + count,
            ).1,
        decreases pages,
    {
        if pages > 0 {
            self.lemma_map_shift(start, flags, behind, ahead, count, used);
            let (next, taken) = self.map(start, flags, ahead, used);
            next.lemma_map_range_shift(
                start + 1,
                (pages - 1) as nat,
                flags,
                behind,
                ahead,
                count,
                taken,
            );
        }
    }
}

} // verus!
