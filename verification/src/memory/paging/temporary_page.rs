//! One page that is mapped for a moment to reach a frame that has no
//! address yet, with three frames of its own for the tables this takes.

use vstd::prelude::*;
use crate::memory::{Frame, FrameAllocator};
use crate::memory::paging::entry::{PageEntryFlags, WRITABLE};
use crate::memory::paging::machine::MachineView;
use crate::memory::paging::mapper::Mapper;
use crate::memory::paging::table::{supply_advanced, Level1, Table};
use crate::memory::paging::{p1_index_of, Page};

verus! {

/// An allocator that holds at most three frames: enough for the three
/// tables that mapping one page can take.
pub struct TinyAllocator {
    first: Option<Frame>,
    second: Option<Frame>,
    third: Option<Frame>,
}

impl TinyAllocator {
    /// The three slots, in the order in which they are searched.
    pub closed spec fn slots(&self) -> Seq<Option<Frame>> {
        seq![self.first, self.second, self.third]
    }

    /// The allocator with these three slots.
    pub closed spec fn holding(
        first: Option<Frame>,
        second: Option<Frame>,
        third: Option<Frame>,
    ) -> TinyAllocator {
        TinyAllocator { first, second, third }
    }

    /// An allocator is the three slots it holds.
    pub proof fn lemma_holding(first: Option<Frame>, second: Option<Frame>, third: Option<Frame>)
        ensures
            Self::holding(first, second, third).slots() == seq![first, second, third],
    {
    }

    /// An allocator that holds three frames hands out these three, first
    /// slot first, and then none.
    pub proof fn lemma_holding_three(first: Frame, second: Frame, third: Frame)
        ensures
            Self::holding(Some(first), Some(second), Some(third)).upcoming(0) == Some(first),
            Self::holding(Some(first), Some(second), Some(third)).upcoming(1) == Some(second),
            Self::holding(Some(first), Some(second), Some(third)).upcoming(2) == Some(third),
            forall|k: nat|
                k >= 3 ==> (#[trigger] Self::holding(
                    Some(first),
                    Some(second),
                    Some(third),
                ).upcoming(k)).is_none(),
    {
        let tiny = Self::holding(Some(first), Some(second), Some(third));
        Self::lemma_holding(Some(first), Some(second), Some(third));
        assert(tiny.held() =~= seq![first, second, third]);
    }

    /// The frames held, in the order in which they will be handed out.
    pub open spec fn held(&self) -> Seq<Frame> {
        frames_of(self.slots()[0]) + frames_of(self.slots()[1]) + frames_of(self.slots()[2])
    }

    /// Takes three frames from `allocator`; a frame that `allocator` cannot
    /// give leaves its slot empty.
    pub fn new<A: FrameAllocator>(allocator: &mut A) -> (tiny: TinyAllocator)
        ensures
            tiny == Self::holding(
                old(allocator).upcoming(0),
                old(allocator).upcoming(1),
                old(allocator).upcoming(2),
            ),
            supply_advanced(old(allocator), final(allocator), 3),
    {
        let first = allocator.allocate_frame();
        let second = allocator.allocate_frame();
        let third = allocator.allocate_frame();
        TinyAllocator { first, second, third }
    }
}

/// Index of the first of three slots that is empty; 2 if none is.
pub open spec fn first_empty(slots: Seq<Option<Frame>>) -> int {
    if slots[0].is_none() {
        0
    } else if slots[1].is_none() {
        1
    } else {
        2
    }
}

/// The frame in a slot, as a sequence of one frame or none.
pub open spec fn frames_of(slot: Option<Frame>) -> Seq<Frame> {
    match slot {
        Some(frame) => seq![frame],
        None => Seq::empty(),
    }
}

impl FrameAllocator for TinyAllocator {
    open spec fn upcoming(&self, k: nat) -> Option<Frame> {
        if k < self.held().len() {
            Some(self.held()[k as int])
        } else {
            None
        }
    }

    /// A frame is taken back while a slot is empty.
    open spec fn accepts(&self, frame: Frame) -> bool {
        self.held().len() < 3
    }

    /// Hands out the frame in the first slot that holds one.
    fn allocate_frame(&mut self) -> (frame: Option<Frame>)
        ensures
            old(self).held().len() > 0 ==> final(self).held() == old(self).held().skip(1),
            old(self).held().len() == 0 ==> final(self).held() == old(self).held(),
    {
        let frame = if self.first.is_some() {
            self.first.take()
        } else if self.second.is_some() {
            self.second.take()
        } else if self.third.is_some() {
            self.third.take()
        } else {
            None
        };
        proof {
            if old(self).held().len() > 0 {
                assert(self.held() =~= old(self).held().skip(1));
            }
        }
        frame
    }

    /// Puts `frame` into the first empty slot.
    fn deallocate_frame(&mut self, frame: Frame)
        ensures
            final(self).slots() == old(self).slots().update(
                first_empty(old(self).slots()),
                Some(frame),
            ),
            final(self).held().len() == old(self).held().len() + 1,
            final(self).held().contains(frame),
    {
        if self.first.is_none() {
            self.first = Some(frame);
        } else if self.second.is_none() {
            self.second = Some(frame);
        } else if self.third.is_none() {
            self.third = Some(frame);
        }
        proof {
            assert(self.slots() =~= old(self).slots().update(
                first_empty(old(self).slots()),
                Some(frame),
            ));
            let held = self.held();
            assert(held.len() == old(self).held().len() + 1);
            assert(exists|i: int| 0 <= i < held.len() && held[i] == frame) by {
                if held[0] == frame {
                } else if held.len() > 1 && held[1] == frame {
                } else {
                    assert(held[2] == frame);
                }
            }
        }
    }
}

/// A page reserved for reaching frames for a moment, with the frames for the
/// tables that mapping it takes.
pub struct TemporaryPage {
    page: Page,
    allocator: TinyAllocator,
}

impl TemporaryPage {
    /// The reserved page.
    pub closed spec fn page(&self) -> Page {
        self.page
    }

    /// The allocator that pays for the page's tables.
    pub closed spec fn allocator(&self) -> TinyAllocator {
        self.allocator
    }

    /// The reserved page.
    pub fn reserved(&self) -> (page: Page)
        ensures
            page == self.page(),
    {
        self.page
    }

    /// Reserves `page` and takes three frames from `allocator` for its tables.
    pub fn new<A: FrameAllocator>(page: Page, allocator: &mut A) -> (temporary: TemporaryPage)
        ensures
            temporary.page() == page,
            temporary.allocator() == TinyAllocator::holding(
                old(allocator).upcoming(0),
                old(allocator).upcoming(1),
                old(allocator).upcoming(2),
            ),
            supply_advanced(old(allocator), final(allocator), 3),
    {
        TemporaryPage { page, allocator: TinyAllocator::new(allocator) }
    }

    /// Maps the page, writable, to `frame` in the loaded hierarchy and
    /// returns the page's address. The page must not be mapped already.
    pub fn map(&mut self, frame: Frame, mapper: &mut Mapper) -> (address: u64)
        requires
            old(mapper)@.mapping(old(self).page()@).is_none(),
            old(mapper)@.can_map_to(old(self).page()@, frame@, &old(self).allocator(), 0),
        ensures
            address == old(self).page()@ * 4096,
            address % 4096 == 0,
            final(self).page() == old(self).page(),
            final(mapper)@ == old(mapper)@.map_to(
                old(self).page()@,
                frame@,
                WRITABLE,
                &old(self).allocator(),
                0,
            ).0,
            supply_advanced(
                &old(self).allocator(),
                &final(self).allocator(),
                old(mapper)@.map_to(
                    old(self).page()@,
                    frame@,
                    WRITABLE,
                    &old(self).allocator(),
                    0,
                ).1,
            ),
            final(mapper)@.recursive(),
            final(mapper)@.mapping(old(self).page()@) == Some(frame@),
    {
        self.try_map(frame, mapper);
        self.page.start_address()
    }

    /// Maps the page as `map` does, if that can be done, and returns the
    /// page's address if it was: it was not if the recursive mapping is not
    /// in place, the page is mapped already or its tables cannot be had.
    pub fn try_map(&mut self, frame: Frame, mapper: &mut Mapper) -> (address: Option<u64>)
        ensures
            address.is_some() == (old(mapper)@.mapping(old(self).page()@).is_none()
                && old(mapper)@.can_map_to(
                old(self).page()@,
                frame@,
                &old(self).allocator(),
                0,
            )),
            address.is_some() ==> {
                &&& address.unwrap() == old(self).page()@ * 4096
                &&& final(mapper)@ == old(mapper)@.map_to(
                    old(self).page()@,
                    frame@,
                    WRITABLE,
                    &old(self).allocator(),
                    0,
                ).0
                &&& supply_advanced(
                    &old(self).allocator(),
                    &final(self).allocator(),
                    old(mapper)@.map_to(
                        old(self).page()@,
                        frame@,
                        WRITABLE,
                        &old(self).allocator(),
                        0,
                    ).1,
                )
                &&& final(mapper)@.recursive()
                &&& final(mapper)@.mapping(old(self).page()@) == Some(frame@)
            },
            final(self).page() == old(self).page(),
            final(mapper)@.table_base == old(mapper)@.table_base,
    {
        proof {
            crate::memory::paging::entry::lemma_flag_bits();
            reveal(MachineView::can_map_to);
        }
        if !mapper.machine().is_recursive() || mapper.is_mapped(self.page) {
            return None;
        }
        if mapper.try_map_to(
            self.page,
            frame,
            PageEntryFlags::from_bits_truncate(WRITABLE),
            &mut self.allocator,
        ) {
            Some(self.page.start_address())
        } else {
            None
        }
    }

    /// Maps the page to `frame` and returns the page as a table: the way to
    /// read and write a frame that holds a table which is not part of the
    /// loaded hierarchy. The handle is of the lowest level, since nothing
    /// below the frame can be reached through it.
    pub fn map_table_frame(&mut self, frame: Frame, mapper: &mut Mapper) -> (table: Table<Level1>)
        requires
            old(mapper)@.mapping(old(self).page()@).is_none(),
            old(mapper)@.can_map_to(old(self).page()@, frame@, &old(self).allocator(), 0),
        ensures
            table.address() == old(self).page()@ * 4096,
            final(self).page() == old(self).page(),
            final(mapper)@ == old(mapper)@.map_to(
                old(self).page()@,
                frame@,
                WRITABLE,
                &old(self).allocator(),
                0,
            ).0,
            supply_advanced(
                &old(self).allocator(),
                &final(self).allocator(),
                old(mapper)@.map_to(
                    old(self).page()@,
                    frame@,
                    WRITABLE,
                    &old(self).allocator(),
                    0,
                ).1,
            ),
            final(mapper)@.recursive(),
            final(mapper)@.mapping(old(self).page()@) == Some(frame@),
    {
        let address = self.map(frame, mapper);
        Table::at(address)
    }

    /// Maps the page as `map_table_frame` does, if that can be done, and
    /// returns the page as a table if it was.
    pub fn try_map_table_frame(&mut self, frame: Frame, mapper: &mut Mapper) -> (table: Option<
        Table<Level1>,
    >)
        ensures
            table.is_some() == (old(mapper)@.mapping(old(self).page()@).is_none()
                && old(mapper)@.can_map_to(
                old(self).page()@,
                frame@,
                &old(self).allocator(),
                0,
            )),
            table.is_some() ==> {
                &&& table.unwrap().address() == old(self).page()@ * 4096
                &&& final(mapper)@ == old(mapper)@.map_to(
                    old(self).page()@,
                    frame@,
                    WRITABLE,
                    &old(self).allocator(),
                    0,
                ).0
                &&& supply_advanced(
                    &old(self).allocator(),
                    &final(self).allocator(),
                    old(mapper)@.map_to(
                        old(self).page()@,
                        frame@,
                        WRITABLE,
                        &old(self).allocator(),
                        0,
                    ).1,
                )
                &&& final(mapper)@.recursive()
                &&& final(mapper)@.mapping(old(self).page()@) == Some(frame@)
            },
            final(self).page() == old(self).page(),
            final(mapper)@.table_base == old(mapper)@.table_base,
    {
        match self.try_map(frame, mapper) {
            Some(address) => Some(Table::at(address)),
            None => None,
        }
    }

    /// Removes the page's mapping. The page has to be mapped.
    pub fn unmap(&mut self, mapper: &mut Mapper)
        requires
            old(mapper)@.recursive(),
            old(mapper)@.p1_table(old(self).page()@).is_some(),
            crate::memory::paging::entry::word_present(
                old(mapper)@.entry(
                    old(mapper)@.p1_table(old(self).page()@).unwrap(),
                    p1_index_of(old(self).page()@),
                ),
            ),
        ensures
            final(mapper)@ == old(mapper)@.unmap(old(self).page()@),
            *final(self) == *old(self),
    {
        self.try_unmap(mapper);
    }

    /// Removes the page's mapping, if it has one by an entry of a level-1
    /// table and the recursive mapping is in place, and says whether it
    /// did. Nothing changes where it did not.
    pub fn try_unmap(&mut self, mapper: &mut Mapper) -> (unmapped: bool)
        ensures
            unmapped == (old(mapper)@.recursive() && old(mapper)@.is_mapped_by_entry(
                old(self).page()@,
            )),
            unmapped ==> final(mapper)@ == old(mapper)@.unmap(old(self).page()@),
            !unmapped ==> final(mapper)@ == old(mapper)@,
            *final(self) == *old(self),
    {
        mapper.try_unmap(self.page, &mut self.allocator)
    }
}

} // verus!
