//! Stacks with a guard page below them, cut from a reserved run of pages.

use vstd::prelude::*;
use crate::memory::FrameAllocator;
use crate::memory::paging::entry::{PageEntryFlags, WRITABLE};
use crate::memory::paging::table::supply_advanced;
use crate::memory::paging::machine::MachineView;
use crate::memory::paging::{
    is_page_number, p4_index_of, ActivePageTable, Page, PageIter, PAGE_LIMIT,
};

verus! {

/// Hands out stacks from a run of pages, lowest first. Below each stack one
/// page stays unmapped.
pub struct StackAllocator {
    range: PageIter,
}

impl StackAllocator {
    /// The pages that are left.
    pub closed spec fn range(&self) -> PageIter {
        self.range
    }

    /// An allocator for the pages of `range`.
    pub fn new(range: PageIter) -> (allocator: StackAllocator)
        ensures
            allocator.range() == range,
    {
        StackAllocator { range }
    }

    /// Whether a stack of `size_in_pages` pages can be had: the size is not
    /// zero and the pages left hold the stack and its guard page.
    pub open spec fn has_room(&self, size_in_pages: usize) -> bool {
        size_in_pages > 0 && self.range().remaining() > size_in_pages
    }

    /// Takes the lowest page left as guard page and maps the `size_in_pages`
    /// pages above it, writable, as a stack. Returns `None`, with nothing
    /// taken or mapped, if the size is zero or the pages left do not hold
    /// the stack and its guard page.
    ///
    /// In a tree, where nothing stands in the way of the stack's pages and
    /// four fresh frames are at hand for each, this leaves a tree in which
    /// the pages of the stack are mapped and every other page translates
    /// as before, the guard page among them; the frames that are left are
    /// fresh, so that the same holds of the next stack, whose pages lie
    /// above this one.
    pub fn alloc_stack<FA: FrameAllocator>(
        &mut self,
        active_table: &mut ActivePageTable,
        frame_allocator: &mut FA,
        size_in_pages: usize,
    ) -> (stack: Option<Stack>)
        requires
            old(self).has_room(size_in_pages) ==> {
                &&& old(self).range().start() + size_in_pages + 1 < PAGE_LIMIT
                &&& old(active_table)@.can_map_range(
                    old(self).range().start() + 1,
                    size_in_pages as nat,
                    WRITABLE,
                    old(frame_allocator),
                    0,
                )
            },
        ensures
            stack.is_some() == old(self).has_room(size_in_pages),
            stack.is_none() ==> {
                &&& final(self).range() == old(self).range()
                &&& final(active_table)@ == old(active_table)@
                &&& supply_advanced(old(frame_allocator), final(frame_allocator), 0)
            },
            stack.is_some() ==> {
                &&& stack.unwrap().spec_bottom() == (old(self).range().start() + 1) * 4096
                &&& stack.unwrap().spec_top() == (old(self).range().start() + 1 + size_in_pages)
                    * 4096
                &&& stack.unwrap().spec_top() - stack.unwrap().spec_bottom() == size_in_pages
                    * 4096
                &&& final(self).range().start() == old(self).range().start() + size_in_pages + 1
                &&& final(self).range().end() == old(self).range().end()
                &&& final(active_table)@ == old(active_table)@.map_range(
                    old(self).range().start() + 1,
                    size_in_pages as nat,
                    WRITABLE,
                    old(frame_allocator),
                    0,
                ).0
                &&& supply_advanced(
                    old(frame_allocator),
                    final(frame_allocator),
                    old(active_table)@.map_range(
                        old(self).range().start() + 1,
                        size_in_pages as nat,
                        WRITABLE,
                        old(frame_allocator),
                        0,
                    ).1,
                )
                &&& forall|count: nat| #[trigger]
                    is_stack_ground(
                        old(active_table)@,
                        old(self).range().start(),
                        size_in_pages as nat,
                        old(frame_allocator),
                        count,
                    ) ==> {
                        &&& final(active_table)@.is_tree()
                        &&& final(active_table)@.maps_range(
                            (old(self).range().start() + 1) as nat,
                            size_in_pages as nat,
                        )
                        &&& final(active_table)@.maps_range_with(
                            (old(self).range().start() + 1) as nat,
                            size_in_pages as nat,
                            WRITABLE,
                        )
                        &&& old(active_table)@.agrees_outside(
                            final(active_table)@,
                            (old(self).range().start() + 1) as nat,
                            size_in_pages as nat,
                        )
                        &&& p4_index_of(old(self).range().start()) != 511 ==> final(active_table)@
                            .mapping(old(self).range().start()) == old(active_table)@.mapping(
                            old(self).range().start(),
                        )
                        &&& final(active_table)@.has_fresh_frames(
                            final(frame_allocator),
                            0,
                            (count - 4 * size_in_pages) as nat,
                        )
                    }
            },
    {
        self.try_alloc_stack(active_table, frame_allocator, size_in_pages)
    }

    /// A stack as `alloc_stack` gives it, if there is room for it and its
    /// pages can be mapped. Where there is room and a page cannot be
    /// mapped, no page for stacks is taken; pages below that one may be
    /// left mapped.
    pub fn try_alloc_stack<FA: FrameAllocator>(
        &mut self,
        active_table: &mut ActivePageTable,
        frame_allocator: &mut FA,
        size_in_pages: usize,
    ) -> (stack: Option<Stack>)
        ensures
            stack.is_some() == {
                &&& old(self).has_room(size_in_pages)
                &&& old(self).range().start() + size_in_pages + 1 < PAGE_LIMIT
                &&& old(active_table)@.can_map_range(
                    old(self).range().start() + 1,
                    size_in_pages as nat,
                    WRITABLE,
                    old(frame_allocator),
                    0,
                )
            },
            !old(self).has_room(size_in_pages) ==> {
                &&& final(active_table)@ == old(active_table)@
                &&& supply_advanced(old(frame_allocator), final(frame_allocator), 0)
            },
            stack.is_none() ==> final(self).range() == old(self).range(),
            stack.is_some() ==> {
                &&& stack.unwrap().spec_bottom() == (old(self).range().start() + 1) * 4096
                &&& stack.unwrap().spec_top() == (old(self).range().start() + 1 + size_in_pages)
                    * 4096
                &&& stack.unwrap().spec_top() - stack.unwrap().spec_bottom() == size_in_pages
                    * 4096
                &&& final(self).range().start() == old(self).range().start() + size_in_pages + 1
                &&& final(self).range().end() == old(self).range().end()
                &&& final(active_table)@ == old(active_table)@.map_range(
                    old(self).range().start() + 1,
                    size_in_pages as nat,
                    WRITABLE,
                    old(frame_allocator),
                    0,
                ).0
                &&& supply_advanced(
                    old(frame_allocator),
                    final(frame_allocator),
                    old(active_table)@.map_range(
                        old(self).range().start() + 1,
                        size_in_pages as nat,
                        WRITABLE,
                        old(frame_allocator),
                        0,
                    ).1,
                )
                &&& forall|count: nat| #[trigger]
                    is_stack_ground(
                        old(active_table)@,
                        old(self).range().start(),
                        size_in_pages as nat,
                        old(frame_allocator),
                        count,
                    ) ==> {
                        &&& final(active_table)@.is_tree()
                        &&& final(active_table)@.maps_range(
                            (old(self).range().start() + 1) as nat,
                            size_in_pages as nat,
                        )
                        &&& final(active_table)@.maps_range_with(
                            (old(self).range().start() + 1) as nat,
                            size_in_pages as nat,
                            WRITABLE,
                        )
                        &&& old(active_table)@.agrees_outside(
                            final(active_table)@,
                            (old(self).range().start() + 1) as nat,
                            size_in_pages as nat,
                        )
                        &&& p4_index_of(old(self).range().start()) != 511 ==> final(active_table)@
                            .mapping(old(self).range().start()) == old(active_table)@.mapping(
                            old(self).range().start(),
                        )
                        &&& final(active_table)@.has_fresh_frames(
                            final(frame_allocator),
                            0,
                            (count - 4 * size_in_pages) as nat,
                        )
                    }
            },
    {
        if size_in_pages == 0 {
            return None;
        }
        let mut range = self.range;
        let guard_page = range.next();
        let stack_start = range.next();
        let stack_end = if size_in_pages == 1 {
            stack_start
        } else {
            // The start page is taken and counting starts at zero.
            range.nth(size_in_pages - 2)
        };
        match (guard_page, stack_start, stack_end) {
            (Some(_), Some(start), Some(end)) => {
                let guard = match guard_page {
                    Some(page) => page.number(),
                    None => 0,
                };
                if end.number() >= PAGE_LIMIT - 1 {
                    return None;
                }
                proof {
                    crate::memory::paging::entry::lemma_flag_bits();
                }
                let ghost before = active_table@;
                let ghost supply = *frame_allocator;
                if !active_table.mapper_mut().try_map_range(
                    Page::range_inclusive(start, end),
                    PageEntryFlags::from_bits_truncate(WRITABLE),
                    frame_allocator,
                ) {
                    return None;
                }
                // The stack is there: make the loss of the pages final.
                self.range = range;
                proof {
                    let size = size_in_pages as nat;
                    let low = guard as nat;
                    let first = (guard + 1) as nat;
                    let after = active_table@;
                    assert forall|count: nat| #[trigger]
                        is_stack_ground(before, low, size, &supply, count) implies {
                        &&& after.is_tree()
                        &&& after.maps_range(first, size)
                        &&& after.maps_range_with(first, size, WRITABLE)
                        &&& before.agrees_outside(after, first, size)
                        &&& p4_index_of(low) != 511 ==> after.mapping(low) == before.mapping(low)
                        &&& after.has_fresh_frames(
                            frame_allocator,
                            0,
                            (count - 4 * size) as nat,
                        )
                    } by {
                        before.lemma_map_range_in_tree(first, size, WRITABLE, &supply, 0, count);
                        let taken = before.map_range(first, size, WRITABLE, &supply, 0).1;
                        after.lemma_fresh_after(
                            &supply,
                            frame_allocator,
                            taken,
                            (count - taken) as nat,
                        );
                        after.lemma_fewer_fresh_frames(
                            frame_allocator,
                            0,
                            (count - taken) as nat,
                            0,
                            (count - 4 * size) as nat,
                        );
                        reveal(MachineView::agrees_outside);
                    }
                }
                let top_of_stack = end.start_address() + 4096;
                Some(Stack::new(top_of_stack, start.start_address()))
            },
            _ => None,
        }
    }
}

/// Whether a stack of `size_in_pages` pages above the guard page `guard` can
/// be had as far as the hierarchy goes: the hierarchy is a tree, nothing
/// stands in the way of the stack's pages, and `allocator` has `count` fresh
/// frames, at least four for each page.
pub open spec fn is_stack_ground<FA: FrameAllocator>(
    machine: MachineView,
    guard: nat,
    size_in_pages: nat,
    allocator: &FA,
    count: nat,
) -> bool {
    &&& machine.is_tree()
    &&& machine.is_vacant_range(guard + 1, size_in_pages)
    &&& machine.has_fresh_frames(allocator, 0, count)
    &&& count >= 4 * size_in_pages
}

/// In a tree, a stack can be had where its pages can be mapped and four fresh
/// frames are at hand for each of them. The pages of the stack are mapped
/// then, writable, and the guard page below them translates as it did
/// before: a guard page that is not mapped stays so.
pub proof fn lemma_guard_page_stays<FA: FrameAllocator>(
    machine: MachineView,
    guard: nat,
    size_in_pages: nat,
    allocator: &FA,
    count: nat,
)
    requires
        machine.is_tree(),
        is_page_number(guard),
        p4_index_of(guard) != 511,
        machine.is_vacant_range(guard + 1, size_in_pages),
        machine.has_fresh_frames(allocator, 0, count),
        count >= 4 * size_in_pages,
    ensures
        machine.can_map_range(guard + 1, size_in_pages, WRITABLE, allocator, 0),
        machine.map_range(guard + 1, size_in_pages, WRITABLE, allocator, 0).0.is_tree(),
        machine.map_range(guard + 1, size_in_pages, WRITABLE, allocator, 0).0.maps_range(
            guard + 1,
            size_in_pages,
        ),
        machine.map_range(guard + 1, size_in_pages, WRITABLE, allocator, 0).0.maps_range_with(
            guard + 1,
            size_in_pages,
            WRITABLE,
        ),
        machine.map_range(guard + 1, size_in_pages, WRITABLE, allocator, 0).0.mapping(guard)
            == machine.mapping(guard),
{
    crate::memory::paging::entry::lemma_flag_bits();
    machine.lemma_map_range_in_tree(guard + 1, size_in_pages, WRITABLE, allocator, 0, count);
    reveal(MachineView::agrees_outside);
}

/// Stacks that are made one after the other leave each other alone: in a
/// tree, with nothing in the way of the pages of two stacks and their guard
/// pages and four fresh frames for each page of a stack, the second stack
/// can be had after the first, above it, and then both guard pages are
/// unmapped as before and the pages of the first stack are still mapped,
/// writable.
pub proof fn lemma_guard_pages_outlast<FA: FrameAllocator>(
    machine: MachineView,
    guard: nat,
    size_in_pages: nat,
    next_size_in_pages: nat,
    allocator: &FA,
    count: nat,
)
    requires
        machine.is_tree(),
        machine.is_vacant_range(guard, size_in_pages + 1 + next_size_in_pages + 1),
        machine.has_fresh_frames(allocator, 0, count),
        count >= 4 * (size_in_pages + next_size_in_pages),
    ensures
        ({
            let next_guard = guard + size_in_pages + 1;
            let (first, used) = machine.map_range(guard + 1, size_in_pages, WRITABLE, allocator, 0);
            let second = first.map_range(
                next_guard + 1,
                next_size_in_pages,
                WRITABLE,
                allocator,
                used,
            ).0;
            &&& machine.can_map_range(guard + 1, size_in_pages, WRITABLE, allocator, 0)
            &&& first.can_map_range(next_guard + 1, next_size_in_pages, WRITABLE, allocator, used)
            &&& second.is_tree()
            &&& second.mapping(guard).is_none()
            &&& second.mapping(next_guard).is_none()
            &&& second.maps_range_with(guard + 1, size_in_pages, WRITABLE)
            &&& second.maps_range_with(next_guard + 1, next_size_in_pages, WRITABLE)
        }),
{
    crate::memory::paging::entry::lemma_flag_bits();
    let next_guard = guard + size_in_pages + 1;
    assert(machine.is_mappable(guard) && machine.is_mappable(next_guard)
        && machine.is_vacant_range(guard + 1, size_in_pages)) by {
        reveal(MachineView::is_vacant_range);
    }
    machine.lemma_vacant_is_unmapped(guard);
    machine.lemma_vacant_is_unmapped(next_guard);
    machine.lemma_map_range_in_tree(guard + 1, size_in_pages, WRITABLE, allocator, 0, count);
    let (first, used) = machine.map_range(guard + 1, size_in_pages, WRITABLE, allocator, 0);
    assert(first.is_vacant_range(next_guard + 1, next_size_in_pages)) by {
        reveal(MachineView::is_vacant_range);
        reveal(MachineView::agrees_outside);
        assert forall|page: nat|
            next_guard + 1 <= page < next_guard + 1
                + next_size_in_pages implies #[trigger] first.is_mappable(page) by {
            assert(machine.is_mappable(page));
        }
    }
    first.lemma_map_range_in_tree(
        next_guard + 1,
        next_size_in_pages,
        WRITABLE,
        allocator,
        used,
        (count - used) as nat,
    );
    let second = first.map_range(next_guard + 1, next_size_in_pages, WRITABLE, allocator, used).0;
    assert(second.mapping(guard).is_none() && second.mapping(next_guard).is_none()) by {
        reveal(MachineView::agrees_outside);
        assert(first.mapping(guard) == machine.mapping(guard));
        assert(first.mapping(next_guard) == machine.mapping(next_guard));
        assert(second.mapping(guard) == first.mapping(guard));
        assert(second.mapping(next_guard) == first.mapping(next_guard));
    }
    assert(second.maps_range_with(guard + 1, size_in_pages, WRITABLE)) by {
        reveal(MachineView::agrees_outside);
        reveal(MachineView::maps_range_with);
        reveal(MachineView::is_vacant_range);
        assert forall|page: nat|
            guard + 1 <= page < guard + 1
                + size_in_pages implies #[trigger] second.is_mapped_with(page, WRITABLE) by {
            assert(machine.is_mappable(page));
            assert(first.is_mapped_with(page, WRITABLE));
            assert(first.is_leaf_mapped(page));
            assert(first.keeps_leaf(second, page));
        }
    }
}

/// A stack: the addresses from `bottom` up to, but not including, `top`.
#[derive(Debug)]
pub struct Stack {
    top: u64,
    bottom: u64,
}

impl Stack {
    #[verifier::type_invariant]
    spec fn not_empty(self) -> bool {
        self.top > self.bottom
    }

    /// Address behind the highest byte of the stack.
    pub closed spec fn spec_top(&self) -> u64 {
        self.top
    }

    /// Address of the lowest byte of the stack.
    pub closed spec fn spec_bottom(&self) -> u64 {
        self.bottom
    }

    /// The stack from `bottom` up to `top`, which has to lie above `bottom`.
    pub fn new(top: u64, bottom: u64) -> (stack: Stack)
        requires
            top > bottom,
        ensures
            stack.spec_top() == top,
            stack.spec_bottom() == bottom,
    {
        Stack { top, bottom }
    }

    /// Address behind the highest byte of the stack.
    pub fn top(&self) -> (top: u64)
        ensures
            top == self.spec_top(),
            top > self.spec_bottom(),
    {
        proof {
            use_type_invariant(self);
        }
        self.top
    }

    /// Address of the lowest byte of the stack.
    pub fn bottom(&self) -> (bottom: u64)
        ensures
            bottom == self.spec_bottom(),
            bottom < self.spec_top(),
    {
        proof {
            use_type_invariant(self);
        }
        self.bottom
    }
}

} // verus!
