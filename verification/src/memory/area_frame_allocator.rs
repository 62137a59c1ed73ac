//! A frame allocator over the memory areas that the boot loader reports
//! as free.

use vstd::prelude::*;
use crate::memory::{Frame, FrameAllocator, FRAME_LIMIT};

verus! {

/// One area of memory that the boot loader reports as free.
#[derive(Debug, Clone, Copy, PartialEq, Eq, Structural)]
pub struct MemoryArea {
    /// Address of the area's first byte.
    pub base_addr: u64,
    /// Number of bytes in the area.
    pub length: u64,
}

impl MemoryArea {
    /// Whether the area holds a byte and ends inside the address space.
    pub open spec fn is_valid(&self) -> bool {
        1 <= self.length && self.base_addr + self.length - 1 <= u64::MAX
    }

    /// Number of the frame that holds the area's first byte.
    pub open spec fn spec_first_frame(&self) -> nat {
        self.base_addr as nat / 4096
    }

    /// Number of the frame that holds the area's last byte.
    pub open spec fn spec_last_frame(&self) -> nat {
        ((self.base_addr + self.length - 1) / 4096) as nat
    }

    /// Whether frame `number` holds a byte of the area.
    pub open spec fn holds(&self, number: nat) -> bool {
        self.spec_first_frame() <= number <= self.spec_last_frame()
    }

    /// Number of the frame that holds the area's first byte.
    pub fn first_frame(&self) -> (number: u64)
        ensures
            number == self.spec_first_frame(),
            number < FRAME_LIMIT,
    {
        self.base_addr / 4096
    }

    /// Number of the frame that holds the area's last byte.
    pub fn last_frame(&self) -> (number: u64)
        requires
            self.is_valid(),
        ensures
            number == self.spec_last_frame(),
            number < FRAME_LIMIT,
            self.spec_first_frame() <= number,
    {
        (self.base_addr + (self.length - 1)) / 4096
    }
}

/// Whether every area of `areas` is valid.
pub open spec fn all_valid(areas: Seq<MemoryArea>) -> bool {
    forall|i: int| 0 <= i < areas.len() ==> (#[trigger] areas[i]).is_valid()
}

/// Whether every area of `areas` is valid.
pub fn are_all_valid(areas: &Vec<MemoryArea>) -> (valid: bool)
    ensures
        valid == all_valid(areas@),
{
    let mut index: usize = 0;
    while index < areas.len()
        invariant
            index <= areas.len(),
            forall|i: int| 0 <= i < index ==> (#[trigger] areas[i]).is_valid(),
        decreases areas.len() - index,
    {
        let area = &areas[index];
        if area.length < 1 || area.base_addr > u64::MAX - (area.length - 1) {
            assert(!areas[index as int].is_valid());
            return false;
        }
        index = index + 1;
    }
    true
}

/// Which frames are there to be handed out.
pub struct FrameLayout {
    /// The free memory areas.
    pub areas: Seq<MemoryArea>,
    /// Numbers of the first and the last frame of the kernel image.
    pub kernel: (nat, nat),
    /// Numbers of the first and the last frame of the boot information.
    pub multiboot: (nat, nat),
}

impl FrameLayout {
    /// Whether frame `number` lies in a free area.
    pub open spec fn in_areas(self, number: nat) -> bool {
        exists|i: int| 0 <= i < self.areas.len() && (#[trigger] self.areas[i]).holds(number)
    }

    /// Whether frame `number` is kept back: it holds a part of the kernel
    /// image or of the boot information.
    pub open spec fn is_reserved(self, number: nat) -> bool {
        ||| self.kernel.0 <= number <= self.kernel.1
        ||| self.multiboot.0 <= number <= self.multiboot.1
    }

    /// Whether frame `number` is handed out at some point: it lies in a free
    /// area and is not kept back.
    pub open spec fn is_free(self, number: nat) -> bool {
        self.in_areas(number) && !self.is_reserved(number)
    }

    /// Whether `number` is the lowest free frame from `from` on.
    pub open spec fn is_next_free(self, from: nat, number: nat) -> bool {
        &&& from <= number
        &&& self.is_free(number)
        &&& forall|lower: nat| from <= lower < number ==> !self.is_free(lower)
    }

    /// The lowest free frame from `from` on, if there is one.
    pub open spec fn next_free(self, from: nat) -> Option<nat> {
        if exists|number: nat| self.is_next_free(from, number) {
            Some(choose|number: nat| self.is_next_free(from, number))
        } else {
            None
        }
    }

    /// The free frame that comes after `k` others, counted from `from` on.
    pub open spec fn nth_free(self, from: nat, k: nat) -> Option<nat>
        decreases k,
    {
        match self.next_free(from) {
            None => None,
            Some(number) => if k == 0 {
                Some(number)
            } else {
                self.nth_free(number + 1, (k - 1) as nat)
            },
        }
    }

    /// The lowest free frame from a point on is the only frame that is free
    /// and has no free frame between that point and itself.
    pub proof fn lemma_next_free(self, from: nat, number: nat)
        requires
            self.is_next_free(from, number),
        ensures
            self.next_free(from) == Some(number),
    {
        let chosen = choose|number: nat| self.is_next_free(from, number);
        assert(self.is_next_free(from, chosen));
        if chosen < number {
            assert(!self.is_free(chosen));
        } else if number < chosen {
            assert(!self.is_free(number));
        }
    }

    /// Where no frame is free from a point on, none comes next, however far
    /// on one starts.
    pub proof fn lemma_none_free(self, from: nat, later: nat, k: nat)
        requires
            forall|number: nat| number >= from ==> !self.is_free(number),
            later >= from,
        ensures
            self.nth_free(later, k).is_none(),
    {
        assert forall|number: nat| !self.is_next_free(later, number) by {
            if self.is_next_free(later, number) {
                assert(!self.is_free(number));
            }
        }
    }

    /// The free frame that comes after `k` others is free and lies at least
    /// `k` frames behind the point from which the count starts.
    pub proof fn lemma_nth_free_is_free(self, from: nat, k: nat)
        requires
            self.nth_free(from, k).is_some(),
        ensures
            self.is_free(self.nth_free(from, k).unwrap()),
            self.nth_free(from, k).unwrap() >= from + k,
        decreases k,
    {
        let first = self.next_free(from).unwrap();
        let chosen = choose|number: nat| self.is_next_free(from, number);
        assert(self.is_next_free(from, chosen));
        if k > 0 {
            self.lemma_nth_free_is_free(first + 1, (k - 1) as nat);
        }
    }

    /// The free frames come in rising order: where one comes after `k`
    /// others, one comes after fewer, and lies below it.
    pub proof fn lemma_nth_free_rises(self, from: nat, j: nat, k: nat)
        requires
            j < k,
            self.nth_free(from, k).is_some(),
        ensures
            self.nth_free(from, j).is_some(),
            self.nth_free(from, j).unwrap() < self.nth_free(from, k).unwrap(),
        decreases j,
    {
        let first = self.next_free(from).unwrap();
        if j == 0 {
            self.lemma_nth_free_is_free(first + 1, (k - 1) as nat);
        } else {
            self.lemma_nth_free_rises(first + 1, (j - 1) as nat, (k - 1) as nat);
        }
    }

    /// Frames that are not free can be skipped: the free frames from a point
    /// on are those from any later point up to which no frame is free.
    pub proof fn lemma_skip(self, from: nat, later: nat, k: nat)
        requires
            from <= later,
            forall|number: nat| from <= number < later ==> !self.is_free(number),
        ensures
            self.nth_free(from, k) == self.nth_free(later, k),
    {
        assert forall|number: nat| self.is_next_free(from, number) == self.is_next_free(
            later,
            number,
        ) by {
            if self.is_next_free(from, number) {
                if number < later {
                    assert(!self.is_free(number));
                }
            }
        }
        assert(self.next_free(from) == self.next_free(later));
    }
}

/// The area to go on with, and the cursor for it: among the areas that
/// reach `cursor`, the one with the lowest base; the cursor moves up to the
/// area's first frame if it lies below. No area has a frame between the old
/// cursor and the new one.
pub fn choose_next_area(areas: &Vec<MemoryArea>, cursor: u64) -> (chosen: (Option<usize>, u64))
    requires
        all_valid(areas@),
        cursor <= FRAME_LIMIT,
    ensures
        cursor <= chosen.1 <= FRAME_LIMIT,
        forall|number: nat, i: int|
            cursor <= number < chosen.1 && 0 <= i < areas.len() ==> !#[trigger] areas[i].holds(
                number,
            ),
        match chosen.0 {
            Some(i) => i < areas.len() && areas[i as int].spec_first_frame() <= chosen.1
                <= areas[i as int].spec_last_frame() && chosen.1 == (if cursor
                < areas[i as int].spec_first_frame() {
                areas[i as int].spec_first_frame()
            } else {
                cursor as nat
            }) && forall|j: int|
                0 <= j < areas.len() && (#[trigger] areas[j]).spec_last_frame() >= cursor
                    ==> areas[i as int].base_addr <= areas[j].base_addr,
            None => chosen.1 == cursor && forall|i: int|
                0 <= i < areas.len() ==> (#[trigger] areas[i]).spec_last_frame() < cursor,
        },
{
    let mut best: Option<usize> = None;
    let mut index: usize = 0;
    while index < areas.len()
        invariant
            index <= areas.len(),
            all_valid(areas@),
            match best {
                Some(b) => b < index && areas[b as int].spec_last_frame() >= cursor && forall|
                    i: int,
                |
                    0 <= i < index && (#[trigger] areas[i]).spec_last_frame() >= cursor
                        ==> areas[b as int].base_addr <= areas[i].base_addr,
                None => forall|i: int|
                    0 <= i < index ==> (#[trigger] areas[i]).spec_last_frame() < cursor,
            },
        decreases areas.len() - index,
    {
        let area = &areas[index];
        if area.last_frame() >= cursor {
            let better = match best {
                Some(b) => area.base_addr < areas[b].base_addr,
                None => true,
            };
            if better {
                best = Some(index);
            }
        }
        index = index + 1;
    }
    match best {
        Some(b) => {
            let start_frame = areas[b].first_frame();
            let last_frame = areas[b].last_frame();
            let moved = if cursor < start_frame {
                start_frame
            } else {
                cursor
            };
            proof {
                assert forall|number: nat, i: int|
                    cursor <= number < moved && 0 <= i < areas.len() implies !#[trigger] areas[i].holds(
                    number,
                ) by {
                    if areas[i].holds(number) {
                        assert(areas[i].spec_last_frame() >= cursor);
                        assert(areas[b as int].base_addr <= areas[i].base_addr);
                    }
                }
            }
            (Some(b), moved)
        },
        None => (None, cursor),
    }
}

/// Hands out the frames of the free memory areas in rising order, leaving
/// out the frames of the kernel image and of the boot information.
pub struct AreaFrameAllocator {
    next_free_frame: u64,
    current_area: Option<usize>,
    areas: Vec<MemoryArea>,
    kernel_start: u64,
    kernel_end: u64,
    multiboot_start: u64,
    multiboot_end: u64,
}

impl AreaFrameAllocator {
    #[verifier::type_invariant]
    spec fn well_formed(self) -> bool {
        &&& self.next_free_frame <= FRAME_LIMIT
        &&& self.kernel_end < FRAME_LIMIT
        &&& self.multiboot_end < FRAME_LIMIT
        &&& all_valid(self.areas@)
        &&& match self.current_area {
            Some(i) => i < self.areas.len() && self.areas[i as int].spec_first_frame()
                <= self.next_free_frame,
            None => forall|i: int|
                0 <= i < self.areas.len() ==> (#[trigger] self.areas[i]).spec_last_frame()
                    < self.next_free_frame,
        }
    }

    /// Which frames the allocator hands out in the course of time.
    pub closed spec fn layout(&self) -> FrameLayout {
        FrameLayout {
            areas: self.areas@,
            kernel: (self.kernel_start as nat, self.kernel_end as nat),
            multiboot: (self.multiboot_start as nat, self.multiboot_end as nat),
        }
    }

    /// Number of the lowest frame that may still be handed out.
    pub closed spec fn cursor(&self) -> nat {
        self.next_free_frame as nat
    }

    /// An allocator for the frames of `memory_areas`, without the frames
    /// that hold the kernel image, from `kernel_start` to `kernel_end`, and
    /// the boot information, from `multiboot_start` to `multiboot_end`. The
    /// frame of each end address is left out too.
    pub fn new(
        kernel_start: u64,
        kernel_end: u64,
        multiboot_start: u64,
        multiboot_end: u64,
        memory_areas: Vec<MemoryArea>,
    ) -> (allocator: AreaFrameAllocator)
        requires
            all_valid(memory_areas@),
        ensures
            allocator.layout() == (FrameLayout {
                areas: memory_areas@,
                kernel: (kernel_start as nat / 4096, kernel_end as nat / 4096),
                multiboot: (multiboot_start as nat / 4096, multiboot_end as nat / 4096),
            }),
            forall|k: nat| #[trigger]
                allocator.upcoming(k) == match allocator.layout().nth_free(0, k) {
                    Some(number) => Some(Frame::of(number)),
                    None => None,
                },
    {
        let (area, cursor) = choose_next_area(&memory_areas, 0);
        let allocator = AreaFrameAllocator {
            next_free_frame: cursor,
            current_area: area,
            areas: memory_areas,
            kernel_start: kernel_start / 4096,
            kernel_end: kernel_end / 4096,
            multiboot_start: multiboot_start / 4096,
            multiboot_end: multiboot_end / 4096,
        };
        proof {
            assert forall|k: nat| #[trigger]
                allocator.upcoming(k) == match allocator.layout().nth_free(0, k) {
                    Some(number) => Some(Frame::of(number)),
                    None => None,
                } by {
                allocator.layout().lemma_skip(0, cursor as nat, k);
            }
        }
        allocator
    }
}

impl FrameAllocator for AreaFrameAllocator {
    /// The free frames from the cursor on, lowest first.
    open spec fn upcoming(&self, k: nat) -> Option<Frame> {
        match self.layout().nth_free(self.cursor(), k) {
            Some(number) => Some(Frame::of(number)),
            None => None,
        }
    }

    /// Any frame can be given back.
    open spec fn accepts(&self, frame: Frame) -> bool {
        true
    }

    /// Hands out the lowest free frame from the cursor on and moves the
    /// cursor behind it; `None` once no free frame is left.
    fn allocate_frame(&mut self) -> (frame: Option<Frame>)
        ensures
            final(self).layout() == old(self).layout(),
            match frame {
                Some(frame) => old(self).layout().is_next_free(old(self).cursor(), frame@)
                    && final(self).cursor() == frame@ + 1,
                None => final(self).cursor() >= old(self).cursor() && forall|number: nat|
                    number >= old(self).cursor() ==> !old(self).layout().is_free(number),
            },
    {
        proof {
            use_type_invariant(&*self);
        }
        let mut cursor = self.next_free_frame;
        let mut current = self.current_area;
        let ghost start = self.next_free_frame as nat;
        let ghost layout = self.layout();
        let mut found: Option<u64> = None;
        loop
            invariant_except_break
                found.is_none(),
                forall|number: nat| start <= number < cursor ==> !layout.is_free(number),
            invariant
                start <= cursor <= FRAME_LIMIT,
                *self == *old(self),
                layout == self.layout(),
                self.kernel_end < FRAME_LIMIT,
                self.multiboot_end < FRAME_LIMIT,
                all_valid(self.areas@),
                match current {
                    Some(i) => i < self.areas.len() && self.areas[i as int].spec_first_frame()
                        <= cursor,
                    None => forall|i: int|
                        0 <= i < self.areas.len() ==> (#[trigger] self.areas[i]).spec_last_frame()
                            < cursor,
                },
            ensures
                match found {
                    Some(number) => start <= number && number + 1 == cursor && layout.is_free(
                        number as nat,
                    ) && forall|lower: nat| start <= lower < number ==> !layout.is_free(lower),
                    None => current.is_none() && forall|number: nat|
                        start <= number < cursor ==> !layout.is_free(number),
                },
            decreases
                    2 * (FRAME_LIMIT + 1 - cursor) + (match current {
                        Some(i) => if cursor > self.areas[i as int].spec_last_frame() {
                            1int
                        } else {
                            0int
                        },
                        None => 0int,
                    }),
        {
            let index = match current {
                Some(index) => index,
                None => { break ; },
            };
            let frame = cursor;
            if frame > self.areas[index].last_frame() {
                // The area is used up: go on with the next one.
                let (area, next) = choose_next_area(&self.areas, cursor);
                current = area;
                cursor = next;
            } else if frame >= self.kernel_start && frame <= self.kernel_end {
                // The frame holds a part of the kernel image.
                cursor = self.kernel_end + 1;
            } else if frame >= self.multiboot_start && frame <= self.multiboot_end {
                // The frame holds a part of the boot information.
                cursor = self.multiboot_end + 1;
            } else {
                // The frame is free: hand it out.
                assert(layout.areas[index as int].holds(frame as nat));
                assert(layout.in_areas(frame as nat));
                assert(!layout.is_reserved(frame as nat));
                cursor = cursor + 1;
                found = Some(frame);
                break ;
            }
        }
        self.next_free_frame = cursor;
        self.current_area = current;
        match found {
            Some(number) => {
                let frame = Frame::from_number(number);
                proof {
                    layout.lemma_next_free(start, number as nat);
                    frame.unwrap().lemma_of();
                }
                frame
            },
            None => {
                proof {
                    assert forall|number: nat| number >= start implies !layout.is_free(number) by {
                        if number >= cursor && layout.in_areas(number) {
                            let i = choose|i: int|
                                0 <= i < layout.areas.len() && (#[trigger] layout.areas[i]).holds(
                                    number,
                                );
                            assert(self.areas[i].spec_last_frame() < cursor);
                        }
                    }
                    assert forall|k: nat| #[trigger]
                        self.upcoming(k) == old(self).upcoming(k + 1) by {
                        layout.lemma_none_free(start, cursor as nat, k);
                        layout.lemma_none_free(start, start, k + 1);
                    }
                    layout.lemma_none_free(start, start, 0);
                }
                None
            },
        }
    }

    /// Drops `frame`: the allocator keeps no record of frames that are free
    /// again, so a frame that is given back is never handed out a second
    /// time.
    fn deallocate_frame(&mut self, frame: Frame)
        ensures
            *final(self) == *old(self),
    {
    }
}

} // verus!
