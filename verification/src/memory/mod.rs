//! Frames, alignment helpers and the frame-allocation capability.

use vstd::prelude::*;
use self::area_frame_allocator::{all_valid, are_all_valid, FrameLayout, MemoryArea};
use self::paging::entry::{ElfSection, PageEntryFlags, ENTRY_FRAME_LIMIT, WRITABLE};
use self::paging::machine::{Machine, MachineView};
use self::paging::rebuild::{image_placed, is_identity_number};
use self::paging::remap::{
    image_apart, image_frames, in_image, in_run, section_range, KernelImage,
};
use self::paging::table::supply_advanced;
use self::paging::{
    is_page_number, p4_index_of, try_remap_the_kernel, ActivePageTable, Page, REMAP_PAGE,
};
use self::stack_allocator::{is_stack_ground, StackAllocator};

pub use self::area_frame_allocator::AreaFrameAllocator;
pub use self::stack_allocator::Stack;

pub mod area_frame_allocator;
pub mod heap_allocator;
pub mod paging;
pub mod stack_allocator;

verus! {

/// Size in bytes of a page and of a frame.
pub const PAGE_SIZE: usize = 4096;

/// Frame numbers lie below this bound: a physical address has 64 bits.
pub const FRAME_LIMIT: u64 = 0x10_0000_0000_0000;

/// Whether `n` is a power of two, read off its bits.
pub open spec fn is_power_of_two(n: usize) -> bool {
    n != 0 && n & ((n - 1) as usize) == 0
}

/// The largest multiple of `align` that is not above `addr`.
pub open spec fn spec_align_down(addr: int, align: int) -> int {
    if align == 0 {
        addr
    } else {
        addr - addr % align
    }
}

/// The address that `align_up` computes: `addr + align - 1`, aligned down.
pub open spec fn spec_align_up(addr: int, align: int) -> int {
    spec_align_down(addr + align - 1, align)
}

/// For a power of two, clearing the low bits subtracts the remainder.
pub proof fn lemma_mask_is_align_down(addr: usize, align: usize)
    requires
        is_power_of_two(align),
    ensures
        addr & !((align - 1) as usize) == addr - addr % align,
    decreases align,
{
    if align == 1 {
        assert(addr & !((1usize - 1) as usize) == addr) by (bit_vector);
    } else {
        let half: usize = align / 2;
        let rest: usize = addr / 2;
        assert(half != 0 && half & ((half - 1) as usize) == 0 && half * 2 == align
            && addr & !((align - 1) as usize) == 2 * (rest & !((half - 1) as usize)))
            by (bit_vector)
            requires
                align != 0 && align & ((align - 1) as usize) == 0,
                align != 1,
                half == align / 2,
                rest == addr / 2,
        ;
        lemma_mask_is_align_down(rest, half);
        vstd::arithmetic::div_mod::lemma_mod_breakdown(addr as int, 2, half as int);
    }
}

/// Rounds `addr` down to a multiple of `align`. An `align` of zero leaves
/// the address as it is; any other `align` has to be a power of two.
pub fn align_down(addr: usize, align: usize) -> (aligned: usize)
    requires
        align == 0 || is_power_of_two(align),
    ensures
        aligned == spec_align_down(addr as int, align as int),
        aligned <= addr,
        align != 0 ==> aligned % align == 0 && addr - aligned < align,
{
    if align != 0 && align & (align - 1) == 0 {
        proof {
            lemma_mask_is_align_down(addr, align);
            lemma_align_down_properties(addr as int, align as int);
        }
        addr & !(align - 1)
    } else {
        addr
    }
}

/// What aligning down guarantees, for any positive alignment.
pub proof fn lemma_align_down_properties(addr: int, align: int)
    requires
        addr >= 0,
        align > 0,
    ensures
        0 <= spec_align_down(addr, align) <= addr,
        spec_align_down(addr, align) % align == 0,
        addr - spec_align_down(addr, align) < align,
{
    vstd::arithmetic::div_mod::lemma_fundamental_div_mod(addr, align);
    vstd::arithmetic::div_mod::lemma_mod_bound(addr, align);
    vstd::arithmetic::div_mod::lemma_mod_multiples_basic(addr / align, align);
    assert(addr - addr % align == align * (addr / align));
    assert(addr - addr % align == (addr / align) * align) by (nonlinear_arith)
        requires
            addr - addr % align == align * (addr / align),
    ;
}

/// Rounds `addr` up to a multiple of `align` by aligning `addr + align - 1`
/// down. The sum has to be representable.
pub fn align_up(addr: usize, align: usize) -> (aligned: usize)
    requires
        align == 0 || is_power_of_two(align),
        1 <= addr + align <= usize::MAX,
    ensures
        aligned == spec_align_up(addr as int, align as int),
        align != 0 ==> addr <= aligned < addr + align && aligned % align == 0,
{
    let aligned = align_down(addr + align - 1, align);
    proof {
        if align != 0 {
            lemma_align_up_properties(addr as int, align as int);
        }
    }
    aligned
}

/// What aligning up guarantees, for any positive alignment.
pub proof fn lemma_align_up_properties(addr: int, align: int)
    requires
        addr >= 0,
        align > 0,
    ensures
        addr <= spec_align_up(addr, align) < addr + align,
        spec_align_up(addr, align) % align == 0,
        addr % align == 0 ==> spec_align_up(addr, align) == addr,
{
    lemma_align_down_properties(addr + align - 1, align);
    if addr % align == 0 {
        let up = spec_align_up(addr, align);
        vstd::arithmetic::div_mod::lemma_fundamental_div_mod(addr, align);
        vstd::arithmetic::div_mod::lemma_fundamental_div_mod(up, align);
        let q = addr / align;
        let p = up / align;
        assert(addr == align * q);
        assert(up == align * p);
        assert(p == q) by (nonlinear_arith)
            requires
                align > 0,
                align * q <= align * p < align * q + align,
        ;
    }
}

} // verus!

verus! {

/// A frame of physical memory, named by its number. Holding a `Frame` is the
/// right to install it in a page table or to hand it back to an allocator;
/// nothing counts the holders.
#[derive(Debug, PartialEq, Eq, PartialOrd, Ord, Structural)]
pub struct Frame {
    number: u64,
}

impl View for Frame {
    type V = nat;

    /// The frame's number.
    closed spec fn view(&self) -> nat {
        self.number as nat
    }
}

impl Frame {
    #[verifier::type_invariant]
    spec fn in_range(self) -> bool {
        self.number < FRAME_LIMIT
    }

    /// The frame with the number `number`.
    pub closed spec fn of(number: nat) -> Frame {
        Frame { number: number as u64 }
    }

    /// A frame is its number.
    pub proof fn lemma_of(self)
        ensures
            Frame::of(self@) == self,
            forall|number: nat| number <= u64::MAX ==> (#[trigger] Frame::of(number))@ == number,
    {
    }

    /// The frame that holds the physical address `addr`.
    pub fn containing_address(addr: u64) -> (frame: Frame)
        ensures
            frame@ == addr as nat / 4096,
    {
        Frame { number: addr / 4096 }
    }

    /// The frame with the given number, if the number names one.
    pub fn from_number(number: u64) -> (frame: Option<Frame>)
        ensures
            frame.is_some() <==> number < FRAME_LIMIT,
            frame.is_some() ==> frame.unwrap()@ == number,
    {
        if number < FRAME_LIMIT {
            Some(Frame { number })
        } else {
            None
        }
    }

    /// Another handle on the same frame.
    pub fn clone(&self) -> (frame: Frame)
        ensures
            frame == *self,
    {
        proof {
            use_type_invariant(self);
        }
        Frame { number: self.number }
    }

    /// The frame's number.
    pub fn number(&self) -> (number: u64)
        ensures
            number == self@,
            number < FRAME_LIMIT,
    {
        proof {
            use_type_invariant(self);
        }
        self.number
    }

    /// Address of the frame's first byte.
    pub fn start_address(&self) -> (addr: u64)
        ensures
            addr == self@ * 4096,
    {
        proof {
            use_type_invariant(self);
        }
        self.number * 4096
    }

    /// Address of the frame's last byte.
    pub fn end_address(&self) -> (addr: u64)
        ensures
            addr == self@ * 4096 + 4095,
    {
        proof {
            use_type_invariant(self);
        }
        self.number * 4096 + 4095
    }

    /// The frames from `start` to `end`, both included, in rising order.
    pub fn range_inclusive(start: Frame, end: Frame) -> (frames: FrameIter)
        ensures
            frames.start() == start@,
            frames.end() == end@,
    {
        proof {
            use_type_invariant(&start);
            use_type_invariant(&end);
        }
        FrameIter { start: start.number, end: end.number }
    }
}

/// A run of consecutive frames, handed out one by one from the low end.
pub struct FrameIter {
    start: u64,
    end: u64,
}

impl FrameIter {
    #[verifier::type_invariant]
    spec fn in_range(self) -> bool {
        self.start <= FRAME_LIMIT && self.end < FRAME_LIMIT
    }

    /// Number of the next frame to hand out.
    pub closed spec fn start(&self) -> nat {
        self.start as nat
    }

    /// Number of the last frame of the run.
    pub closed spec fn end(&self) -> nat {
        self.end as nat
    }

    /// How many frames are left.
    pub open spec fn remaining(&self) -> nat {
        if self.start() <= self.end() {
            (self.end() - self.start() + 1) as nat
        } else {
            0
        }
    }

    /// How many frames are left.
    pub fn len(&self) -> (count: u64)
        ensures
            count == self.remaining(),
    {
        proof {
            use_type_invariant(self);
        }
        if self.start <= self.end {
            self.end - self.start + 1
        } else {
            0
        }
    }

    /// Hands out the lowest frame that is left, if any.
    pub fn next(&mut self) -> (frame: Option<Frame>)
        ensures
            final(self).end() == old(self).end(),
            old(self).start() <= old(self).end() ==> frame.is_some() && frame.unwrap()@ == old(
                self,
            ).start() && final(self).start() == old(self).start() + 1,
            old(self).start() > old(self).end() ==> frame.is_none() && final(self).start() == old(
                self,
            ).start(),
    {
        proof {
            use_type_invariant(&*self);
        }
        if self.start <= self.end {
            let frame = Frame { number: self.start };
            self.start = self.start + 1;
            Some(frame)
        } else {
            None
        }
    }
}

/// The capability to hand out frames and to take them back.
///
/// An allocator is described by the frames it is going to return: `upcoming(k)`
/// is the result of the allocation after `k` further ones, as long as no frame
/// is given back in between.
pub trait FrameAllocator {
    /// What the allocation after `k` further ones returns. An allocator
    /// that says nothing else is taken to be exhausted.
    open spec fn upcoming(&self, k: nat) -> Option<Frame> {
        None
    }

    /// Whether the allocator takes `frame` back in its present state. An
    /// allocator that says nothing else takes no frame back.
    open spec fn accepts(&self, frame: Frame) -> bool {
        false
    }

    /// Returns the next free frame, or `None` when the allocator is exhausted.
    fn allocate_frame(&mut self) -> (frame: Option<Frame>)
        ensures
            frame == old(self).upcoming(0),
            forall|k: nat| #[trigger] final(self).upcoming(k) == old(self).upcoming(k + 1),
    ;

    /// Gives `frame` back to the allocator.
    fn deallocate_frame(&mut self, frame: Frame)
        requires
            old(self).accepts(frame),
    ;
}

} // verus!

verus! {

/// First page of the kernel heap.
pub const HEAP_START_PAGE: u64 = 0x4_0000;

/// Number of pages of the kernel heap.
pub const HEAP_PAGES: u64 = 25;

/// Number of pages behind the first one of the run that stacks are cut from.
pub const STACK_RANGE_PAGES: u64 = 100;

/// The heap lies where its pages are.
pub proof fn lemma_heap_pages()
    ensures
        HEAP_START_PAGE == crate::HEAP_START / PAGE_SIZE,
        HEAP_START_PAGE + HEAP_PAGES - 1 == (crate::HEAP_START + crate::HEAP_SIZE - 1) / (
        PAGE_SIZE as int),
{
}

/// Whether `section` is loaded with the lowest start address among the
/// loaded sections of `sections`.
pub open spec fn is_kernel_start(sections: Seq<ElfSection>, start: u64) -> bool {
    &&& exists|i: int|
        0 <= i < sections.len() && (#[trigger] sections[i]).spec_is_allocated() && sections[i].addr
            == start
    &&& forall|i: int|
        0 <= i < sections.len() && (#[trigger] sections[i]).spec_is_allocated() ==> start
            <= sections[i].addr
}

/// Whether `end` is the highest end address among the loaded sections of
/// `sections`.
pub open spec fn is_kernel_end(sections: Seq<ElfSection>, end: u64) -> bool {
    &&& exists|i: int|
        0 <= i < sections.len() && (#[trigger] sections[i]).spec_is_allocated() && sections[i].addr
            + sections[i].size == end
    &&& forall|i: int|
        0 <= i < sections.len() && (#[trigger] sections[i]).spec_is_allocated() ==> sections[i].addr
            + sections[i].size <= end
}

/// Whether a section is loaded and every loaded section ends at an address
/// that fits.
pub open spec fn has_kernel_extent(sections: Seq<ElfSection>) -> bool {
    &&& exists|i: int| 0 <= i < sections.len() && (#[trigger] sections[i]).spec_is_allocated()
    &&& forall|i: int|
        0 <= i < sections.len() && (#[trigger] sections[i]).spec_is_allocated() ==> sections[i].addr
            + sections[i].size <= u64::MAX
}

/// Whether a section is loaded and every loaded section ends at an address
/// that fits.
pub fn sections_have_extent(sections: &Vec<ElfSection>) -> (fits: bool)
    ensures
        fits == has_kernel_extent(sections@),
{
    let mut found = false;
    let ghost mut loaded: int = 0;
    let mut index: usize = 0;
    while index < sections.len()
        invariant
            index <= sections.len(),
            found ==> 0 <= loaded < index && sections[loaded].spec_is_allocated(),
            !found ==> forall|i: int|
                0 <= i < index ==> !(#[trigger] sections[i]).spec_is_allocated(),
            forall|i: int|
                0 <= i < index && (#[trigger] sections[i]).spec_is_allocated() ==> sections[i].addr
                    + sections[i].size <= u64::MAX,
        decreases sections.len() - index,
    {
        let section = &sections[index];
        if section.is_allocated() {
            if section.size > u64::MAX - section.addr {
                assert(sections[index as int].spec_is_allocated());
                return false;
            }
            found = true;
            proof {
                loaded = index as int;
            }
        }
        index = index + 1;
    }
    found
}

/// The extent of the kernel image: the lowest start address and the highest
/// end address of its loaded sections.
pub fn kernel_extent(sections: &Vec<ElfSection>) -> (extent: (u64, u64))
    requires
        has_kernel_extent(sections@),
    ensures
        is_kernel_start(sections@, extent.0),
        is_kernel_end(sections@, extent.1),
{
    let mut start: Option<u64> = None;
    let mut end: Option<u64> = None;
    let mut index: usize = 0;
    while index < sections.len()
        invariant
            index <= sections.len(),
            has_kernel_extent(sections@),
            start.is_some() == end.is_some(),
            start.is_none() ==> forall|i: int|
                0 <= i < index ==> !(#[trigger] sections[i]).spec_is_allocated(),
            start.is_some() ==> is_kernel_start(sections@.take(index as int), start.unwrap())
                && is_kernel_end(sections@.take(index as int), end.unwrap()),
        decreases sections.len() - index,
    {
        let section = &sections[index];
        let ghost before = sections@.take(index as int);
        let ghost after = sections@.take(index + 1);
        proof {
            assert forall|i: int| 0 <= i < index implies #[trigger] after[i] == before[i] by {}
            assert(after[index as int] == sections[index as int]);
        }
        if section.is_allocated() {
            let section_end = section.addr + section.size;
            let ghost old_start = start;
            let ghost old_end = end;
            start = match start {
                Some(lowest) => if section.addr < lowest {
                    Some(section.addr)
                } else {
                    Some(lowest)
                },
                None => Some(section.addr),
            };
            end = match end {
                Some(highest) => if section_end > highest {
                    Some(section_end)
                } else {
                    Some(highest)
                },
                None => Some(section_end),
            };
            proof {
                if old_start.is_some() {
                    let i = choose|i: int|
                        0 <= i < before.len() && (#[trigger] before[i]).spec_is_allocated()
                            && before[i].addr == old_start.unwrap();
                    assert(after[i] == before[i]);
                    let j = choose|j: int|
                        0 <= j < before.len() && (#[trigger] before[j]).spec_is_allocated()
                            && before[j].addr + before[j].size == old_end.unwrap();
                    assert(after[j] == before[j]);
                }
                assert(after[index as int].spec_is_allocated());
                assert forall|i: int|
                    0 <= i < after.len() && (#[trigger] after[i]).spec_is_allocated() implies start.unwrap()
                    <= after[i].addr && after[i].addr + after[i].size <= end.unwrap() by {
                    if i < index {
                        assert(after[i] == before[i]);
                    }
                }
            }
        } else {
            proof {
                if start.is_some() {
                    let i = choose|i: int|
                        0 <= i < before.len() && (#[trigger] before[i]).spec_is_allocated()
                            && before[i].addr == start.unwrap();
                    assert(after[i] == before[i]);
                    let j = choose|j: int|
                        0 <= j < before.len() && (#[trigger] before[j]).spec_is_allocated()
                            && before[j].addr + before[j].size == end.unwrap();
                    assert(after[j] == before[j]);
                    assert forall|i: int|
                        0 <= i < after.len() && (#[trigger] after[i]).spec_is_allocated() implies start.unwrap()
                        <= after[i].addr && after[i].addr + after[i].size <= end.unwrap() by {
                        if i < index {
                            assert(after[i] == before[i]);
                        }
                    }
                }
            }
        }
        index = index + 1;
    }
    proof {
        assert(sections@.take(sections.len() as int) =~= sections@);
    }
    match (start, end) {
        (Some(start), Some(end)) => (start, end),
        _ => (0, 0),
    }
}

/// The loaded hierarchy, the frame allocator and the stack allocator of the
/// running kernel.
pub struct MemoryController {
    active_table: ActivePageTable,
    frame_allocator: AreaFrameAllocator,
    stack_allocator: StackAllocator,
}

impl MemoryController {
    /// The machine with the loaded hierarchy.
    pub closed spec fn machine(&self) -> MachineView {
        self.active_table@
    }

    /// The allocator of frames.
    pub closed spec fn frame_allocator(&self) -> AreaFrameAllocator {
        self.frame_allocator
    }

    /// The allocator of stacks.
    pub closed spec fn stack_allocator(&self) -> StackAllocator {
        self.stack_allocator
    }

    /// The loaded hierarchy.
    pub fn active_table(&self) -> (table: &ActivePageTable)
        ensures
            table@ == self.machine(),
    {
        &self.active_table
    }

    /// A stack of `size_in_pages` pages with an unmapped guard page below
    /// it, or `None` if the size is zero or the pages for stacks are used up.
    pub fn alloc_stack(&mut self, size_in_pages: usize) -> (stack: Option<Stack>)
        requires
            old(self).stack_allocator().has_room(size_in_pages) ==> {
                &&& old(self).stack_allocator().range().start() + size_in_pages + 1
                    < crate::memory::paging::PAGE_LIMIT
                &&& old(self).machine().can_map_range(
                    old(self).stack_allocator().range().start() + 1,
                    size_in_pages as nat,
                    WRITABLE,
                    &old(self).frame_allocator(),
                    0,
                )
            },
        ensures
            stack.is_some() == old(self).stack_allocator().has_room(size_in_pages),
            stack.is_none() ==> {
                &&& final(self).stack_allocator().range() == old(self).stack_allocator().range()
                &&& final(self).machine() == old(self).machine()
                &&& supply_advanced(&old(self).frame_allocator(), &final(self).frame_allocator(), 0)
            },
            stack.is_some() ==> {
                &&& stack.unwrap().spec_bottom() == (old(self).stack_allocator().range().start()
                    + 1) * 4096
                &&& stack.unwrap().spec_top() - stack.unwrap().spec_bottom() == size_in_pages
                    * 4096
                &&& final(self).stack_allocator().range().start() == old(
                    self,
                ).stack_allocator().range().start() + size_in_pages + 1
                &&& final(self).stack_allocator().range().end() == old(
                    self,
                ).stack_allocator().range().end()
                &&& final(self).machine() == old(self).machine().map_range(
                    old(self).stack_allocator().range().start() + 1,
                    size_in_pages as nat,
                    WRITABLE,
                    &old(self).frame_allocator(),
                    0,
                ).0
                &&& supply_advanced(
                    &old(self).frame_allocator(),
                    &final(self).frame_allocator(),
                    old(self).machine().map_range(
                        old(self).stack_allocator().range().start() + 1,
                        size_in_pages as nat,
                        WRITABLE,
                        &old(self).frame_allocator(),
                        0,
                    ).1,
                )
                &&& forall|count: nat| #[trigger]
                    is_stack_ground(
                        old(self).machine(),
                        old(self).stack_allocator().range().start(),
                        size_in_pages as nat,
                        &old(self).frame_allocator(),
                        count,
                    ) ==> {
                        &&& final(self).machine().is_tree()
                        &&& final(self).machine().maps_range(
                            (old(self).stack_allocator().range().start() + 1) as nat,
                            size_in_pages as nat,
                        )
                        &&& final(self).machine().maps_range_with(
                            (old(self).stack_allocator().range().start() + 1) as nat,
                            size_in_pages as nat,
                            WRITABLE,
                        )
                        &&& old(self).machine().agrees_outside(
                            final(self).machine(),
                            (old(self).stack_allocator().range().start() + 1) as nat,
                            size_in_pages as nat,
                        )
                        &&& p4_index_of(old(self).stack_allocator().range().start()) != 511
                            ==> final(self).machine().mapping(
                            old(self).stack_allocator().range().start(),
                        ) == old(self).machine().mapping(
                            old(self).stack_allocator().range().start(),
                        )
                        &&& final(self).machine().has_fresh_frames(
                            &final(self).frame_allocator(),
                            0,
                            (count - 4 * size_in_pages) as nat,
                        )
                    }
            },
    {
        self.stack_allocator.alloc_stack(
            &mut self.active_table,
            &mut self.frame_allocator,
            size_in_pages,
        )
    }

    /// A stack as `alloc_stack` gives it, if there is room for it and its
    /// pages can be mapped. Where there is room and a page cannot be
    /// mapped, no page for stacks is taken; pages below that one may be
    /// left mapped.
    pub fn try_alloc_stack(&mut self, size_in_pages: usize) -> (stack: Option<Stack>)
        ensures
            stack.is_some() == {
                &&& old(self).stack_allocator().has_room(size_in_pages)
                &&& old(self).stack_allocator().range().start() + size_in_pages + 1
                    < crate::memory::paging::PAGE_LIMIT
                &&& old(self).machine().can_map_range(
                    old(self).stack_allocator().range().start() + 1,
                    size_in_pages as nat,
                    WRITABLE,
                    &old(self).frame_allocator(),
                    0,
                )
            },
            !old(self).stack_allocator().has_room(size_in_pages) ==> {
                &&& final(self).machine() == old(self).machine()
                &&& supply_advanced(&old(self).frame_allocator(), &final(self).frame_allocator(), 0)
            },
            stack.is_none() ==> final(self).stack_allocator().range() == old(
                self,
            ).stack_allocator().range(),
            stack.is_some() ==> {
                &&& stack.unwrap().spec_bottom() == (old(self).stack_allocator().range().start()
                    + 1) * 4096
                &&& stack.unwrap().spec_top() - stack.unwrap().spec_bottom() == size_in_pages
                    * 4096
                &&& final(self).stack_allocator().range().start() == old(
                    self,
                ).stack_allocator().range().start() + size_in_pages + 1
                &&& final(self).stack_allocator().range().end() == old(
                    self,
                ).stack_allocator().range().end()
                &&& final(self).machine() == old(self).machine().map_range(
                    old(self).stack_allocator().range().start() + 1,
                    size_in_pages as nat,
                    WRITABLE,
                    &old(self).frame_allocator(),
                    0,
                ).0
                &&& supply_advanced(
                    &old(self).frame_allocator(),
                    &final(self).frame_allocator(),
                    old(self).machine().map_range(
                        old(self).stack_allocator().range().start() + 1,
                        size_in_pages as nat,
                        WRITABLE,
                        &old(self).frame_allocator(),
                        0,
                    ).1,
                )
                &&& forall|count: nat| #[trigger]
                    is_stack_ground(
                        old(self).machine(),
                        old(self).stack_allocator().range().start(),
                        size_in_pages as nat,
                        &old(self).frame_allocator(),
                        count,
                    ) ==> {
                        &&& final(self).machine().is_tree()
                        &&& final(self).machine().maps_range(
                            (old(self).stack_allocator().range().start() + 1) as nat,
                            size_in_pages as nat,
                        )
                        &&& final(self).machine().maps_range_with(
                            (old(self).stack_allocator().range().start() + 1) as nat,
                            size_in_pages as nat,
                            WRITABLE,
                        )
                        &&& old(self).machine().agrees_outside(
                            final(self).machine(),
                            (old(self).stack_allocator().range().start() + 1) as nat,
                            size_in_pages as nat,
                        )
                        &&& p4_index_of(old(self).stack_allocator().range().start()) != 511
                            ==> final(self).machine().mapping(
                            old(self).stack_allocator().range().start(),
                        ) == old(self).machine().mapping(
                            old(self).stack_allocator().range().start(),
                        )
                        &&& final(self).machine().has_fresh_frames(
                            &final(self).frame_allocator(),
                            0,
                            (count - 4 * size_in_pages) as nat,
                        )
                    }
            },
    {
        self.stack_allocator.try_alloc_stack(
            &mut self.active_table,
            &mut self.frame_allocator,
            size_in_pages,
        )
    }
}

/// Whether `allocator` is a frame allocator as the kernel starts with: one
/// for the frames of `areas` without those of the kernel image and of the
/// boot information, with no frame handed out yet.
pub open spec fn is_initial_allocator(
    allocator: AreaFrameAllocator,
    areas: Seq<MemoryArea>,
    sections: Seq<ElfSection>,
    boot_info_start: u64,
    boot_info_end: u64,
) -> bool {
    &&& exists|start: u64, end: u64|
        {
            &&& is_kernel_start(sections, start)
            &&& is_kernel_end(sections, end)
            &&& #[trigger] allocator.layout() == (FrameLayout {
                areas,
                kernel: (start as nat / 4096, end as nat / 4096),
                multiboot: (boot_info_start as nat / 4096, boot_info_end as nat / 4096),
            })
        }
    &&& forall|k: nat| #[trigger]
        allocator.upcoming(k) == match allocator.layout().nth_free(0, k) {
            Some(number) => Some(Frame::of(number)),
            None => None,
        }
}

impl MachineView {
    /// The machine after the kernel was set up with the frames of
    /// `allocator`: the kernel runs in a hierarchy of its own and the pages
    /// of the heap are mapped, writable; and the number of frames taken.
    pub open spec fn init<A: FrameAllocator>(
        self,
        sections: Seq<ElfSection>,
        boot_info_start: u64,
        boot_info_end: u64,
        allocator: &A,
    ) -> (MachineView, nat) {
        let steps = self.remap_steps(sections, boot_info_start, boot_info_end, allocator);
        steps.done.map_range(
            HEAP_START_PAGE as nat,
            HEAP_PAGES as nat,
            WRITABLE,
            allocator,
            steps.used,
        )
    }

    /// Whether the kernel can be set up with the frames of `allocator`.
    pub open spec fn can_init<A: FrameAllocator>(
        self,
        sections: Seq<ElfSection>,
        boot_info_start: u64,
        boot_info_end: u64,
        allocator: &A,
    ) -> bool {
        let steps = self.remap_steps(sections, boot_info_start, boot_info_end, allocator);
        &&& self.can_remap(sections, boot_info_start, boot_info_end, allocator)
        &&& steps.done.can_map_range(
            HEAP_START_PAGE as nat,
            HEAP_PAGES as nat,
            WRITABLE,
            allocator,
            steps.used,
        )
    }
}

/// Whether the kernel's memory can be set up: the areas are valid, the image
/// has a loaded section, and the work goes through with every allocator
/// that the kernel may start with.
pub open spec fn can_start(
    machine: MachineView,
    areas: Seq<MemoryArea>,
    sections: Seq<ElfSection>,
    boot_info_start: u64,
    boot_info_end: u64,
) -> bool {
    &&& all_valid(areas)
    &&& has_kernel_extent(sections)
    &&& forall|allocator: AreaFrameAllocator|
        is_initial_allocator(allocator, areas, sections, boot_info_start, boot_info_end)
            ==> #[trigger] machine.can_init(sections, boot_info_start, boot_info_end, &allocator)
}

impl MachineView {
    /// Allocators that hand out the same frames set the kernel up alike.
    pub proof fn lemma_same_supply<A: FrameAllocator>(
        self,
        sections: Seq<ElfSection>,
        boot_info_start: u64,
        boot_info_end: u64,
        one: &A,
        other: &A,
    )
        requires
            supply_advanced(one, other, 0),
        ensures
            self.remap_steps(sections, boot_info_start, boot_info_end, other) == self.remap_steps(
                sections,
                boot_info_start,
                boot_info_end,
                one,
            ),
            self.can_remap(sections, boot_info_start, boot_info_end, other) == self.can_remap(
                sections,
                boot_info_start,
                boot_info_end,
                one,
            ),
            self.can_init(sections, boot_info_start, boot_info_end, other) == self.can_init(
                sections,
                boot_info_start,
                boot_info_end,
                one,
            ),
            self.init(sections, boot_info_start, boot_info_end, other) == self.init(
                sections,
                boot_info_start,
                boot_info_end,
                one,
            ),
    {
        assert(other.upcoming(0) == one.upcoming(0));
        assert(other.upcoming(1) == one.upcoming(1));
        assert(other.upcoming(2) == one.upcoming(2));
        assert(other.upcoming(3) == one.upcoming(3));
        let steps = self.remap_steps(sections, boot_info_start, boot_info_end, one);
        steps.entered.lemma_map_image_shift(
            sections,
            boot_info_start,
            boot_info_end,
            one,
            other,
            0,
            4,
        );
        steps.done.lemma_map_range_shift(
            HEAP_START_PAGE as nat,
            HEAP_PAGES as nat,
            WRITABLE,
            one,
            other,
            0,
            steps.used,
        );
    }
}

/// Sets up the kernel's memory on `machine`: a frame allocator for the free
/// areas without the kernel image and the boot information, a hierarchy of
/// the kernel's own with the image mapped at its addresses, the pages of the
/// heap, and behind them a run of pages for stacks.
///
/// The machine is taken over for good, so this happens once for a machine.
///
/// From the machine as the boot code leaves it this goes through with every
/// allocator that the kernel may start with: see
/// `MachineView::lemma_can_start` and `MachineView::lemma_set_up`.
pub fn init(machine: Machine, memory_areas: Vec<MemoryArea>, image: KernelImage) -> (controller:
    MemoryController)
    requires
        can_start(
            machine@,
            memory_areas@,
            image.sections@,
            image.boot_info_start,
            image.boot_info_end,
        ),
    ensures
        exists|allocator: AreaFrameAllocator|
            {
                &&& is_initial_allocator(
                    allocator,
                    memory_areas@,
                    image.sections@,
                    image.boot_info_start,
                    image.boot_info_end,
                )
                &&& controller.machine() == (#[trigger] machine@.init(
                    image.sections@,
                    image.boot_info_start,
                    image.boot_info_end,
                    &allocator,
                )).0
                &&& supply_advanced(
                    &allocator,
                    &controller.frame_allocator(),
                    machine@.init(
                        image.sections@,
                        image.boot_info_start,
                        image.boot_info_end,
                        &allocator,
                    ).1,
                )
            },
        controller.stack_allocator().range().start() == HEAP_START_PAGE + HEAP_PAGES,
        controller.stack_allocator().range().end() == HEAP_START_PAGE + HEAP_PAGES
            + STACK_RANGE_PAGES,
{
    try_init(machine, memory_areas, image).unwrap()
}

/// Sets up the kernel's memory as `init` does, if that can be done, and
/// returns the controller if it was: it was not if an area or the image is
/// malformed, the frames run out, or a page that is needed is taken.
pub fn try_init(machine: Machine, memory_areas: Vec<MemoryArea>, image: KernelImage) -> (controller:
    Option<MemoryController>)
    ensures
        controller.is_some() == can_start(
            machine@,
            memory_areas@,
            image.sections@,
            image.boot_info_start,
            image.boot_info_end,
        ),
        controller matches Some(controller) ==> {
            &&& exists|allocator: AreaFrameAllocator|
                {
                    &&& is_initial_allocator(
                        allocator,
                        memory_areas@,
                        image.sections@,
                        image.boot_info_start,
                        image.boot_info_end,
                    )
                    &&& controller.machine() == (#[trigger] machine@.init(
                        image.sections@,
                        image.boot_info_start,
                        image.boot_info_end,
                        &allocator,
                    )).0
                    &&& supply_advanced(
                        &allocator,
                        &controller.frame_allocator(),
                        machine@.init(
                            image.sections@,
                            image.boot_info_start,
                            image.boot_info_end,
                            &allocator,
                        ).1,
                    )
                }
            &&& controller.stack_allocator().range().start() == HEAP_START_PAGE + HEAP_PAGES
            &&& controller.stack_allocator().range().end() == HEAP_START_PAGE + HEAP_PAGES
                + STACK_RANGE_PAGES
        },
{
    if !are_all_valid(&memory_areas) || !sections_have_extent(&image.sections) {
        return None;
    }
    let (kernel_start, kernel_end) = kernel_extent(&image.sections);
    let ghost sections = image.sections@;
    let ghost boot_info_start = image.boot_info_start;
    let ghost boot_info_end = image.boot_info_end;
    let mut frame_allocator = AreaFrameAllocator::new(
        kernel_start,
        kernel_end,
        image.boot_info_start,
        image.boot_info_end,
        memory_areas,
    );
    let ghost initial = frame_allocator;
    proof {
        assert(is_initial_allocator(
            initial,
            memory_areas@,
            sections,
            boot_info_start,
            boot_info_end,
        ));
        assert forall|other: AreaFrameAllocator|
            is_initial_allocator(
                other,
                memory_areas@,
                sections,
                boot_info_start,
                boot_info_end,
            ) implies #[trigger] machine@.can_init(sections, boot_info_start, boot_info_end, &other)
            == machine@.can_init(sections, boot_info_start, boot_info_end, &initial) by {
            let (start, end) = choose|start: u64, end: u64|
                {
                    &&& is_kernel_start(sections, start)
                    &&& is_kernel_end(sections, end)
                    &&& #[trigger] other.layout() == (FrameLayout {
                        areas: memory_areas@,
                        kernel: (start as nat / 4096, end as nat / 4096),
                        multiboot: (boot_info_start as nat / 4096, boot_info_end as nat / 4096),
                    })
                };
            lemma_kernel_extent_unique(sections, start, kernel_start, end, kernel_end);
            assert(other.layout() == initial.layout());
            assert(supply_advanced(&initial, &other, 0));
            machine@.lemma_same_supply(sections, boot_info_start, boot_info_end, &initial, &other);
        }
    }
    let ghost before = machine@;
    let ghost steps = before.remap_steps(sections, boot_info_start, boot_info_end, &initial);
    let mut active_table = match try_remap_the_kernel(machine, &mut frame_allocator, image) {
        Ok(active_table) => active_table,
        Err(_) => {
            assert(!before.can_init(sections, boot_info_start, boot_info_end, &initial));
            return None;
        },
    };

    proof {
        lemma_heap_pages();
        crate::memory::paging::entry::lemma_flag_bits();
        steps.done.lemma_map_range_shift(
            HEAP_START_PAGE as nat,
            HEAP_PAGES as nat,
            WRITABLE,
            &initial,
            &frame_allocator,
            steps.used,
            0,
        );
    }
    let ghost remapped = frame_allocator;
    let ghost taken = steps.done.map_range(
        HEAP_START_PAGE as nat,
        HEAP_PAGES as nat,
        WRITABLE,
        &remapped,
        0,
    ).1;
    let heap_start_page = Page::containing_address(crate::HEAP_START as u64);
    let heap_end_page = Page::containing_address(
        (crate::HEAP_START + crate::HEAP_SIZE - 1) as u64,
    );
    if !active_table.mapper_mut().try_map_range(
        Page::range_inclusive(heap_start_page, heap_end_page),
        PageEntryFlags::from_bits_truncate(WRITABLE),
        &mut frame_allocator,
    ) {
        assert(!before.can_init(sections, boot_info_start, boot_info_end, &initial));
        return None;
    }

    let stack_allocator = {
        let stack_alloc_start = heap_end_page.add(1);
        let stack_alloc_end = stack_alloc_start.add(100);
        let stack_alloc_range = Page::range_inclusive(stack_alloc_start, stack_alloc_end);
        StackAllocator::new(stack_alloc_range)
    };
    proof {
        assert forall|k: nat| #[trigger]
            frame_allocator.upcoming(k) == initial.upcoming(k + (taken + steps.used)) by {
            assert(frame_allocator.upcoming(k) == remapped.upcoming(k + taken));
            assert(remapped.upcoming(k + taken) == initial.upcoming(k + taken + steps.used));
        }
        assert(supply_advanced(&initial, &frame_allocator, taken + steps.used));
        let outcome = before.init(sections, boot_info_start, boot_info_end, &initial);
        assert(outcome.1 == taken + steps.used);
        assert(active_table@ == outcome.0);
    }
    let set_up = MemoryController { active_table, frame_allocator, stack_allocator };
    proof {
        let outcome = before.init(sections, boot_info_start, boot_info_end, &initial);
        assert(set_up.machine() == outcome.0);
        assert(supply_advanced(&initial, &set_up.frame_allocator(), outcome.1));
    }
    Some(set_up)
}

/// The loaded sections have one lowest start address and one highest end
/// address.
pub proof fn lemma_kernel_extent_unique(
    sections: Seq<ElfSection>,
    start: u64,
    other_start: u64,
    end: u64,
    other_end: u64,
)
    requires
        is_kernel_start(sections, start),
        is_kernel_start(sections, other_start),
        is_kernel_end(sections, end),
        is_kernel_end(sections, other_end),
    ensures
        start == other_start,
        end == other_end,
{
    let i = choose|i: int|
        0 <= i < sections.len() && (#[trigger] sections[i]).spec_is_allocated() && sections[i].addr
            == start;
    let j = choose|j: int|
        0 <= j < sections.len() && (#[trigger] sections[j]).spec_is_allocated() && sections[j].addr
            == other_start;
    assert(other_start <= sections[i].addr);
    assert(start <= sections[j].addr);
    let k = choose|k: int|
        0 <= k < sections.len() && (#[trigger] sections[k]).spec_is_allocated() && sections[k].addr
            + sections[k].size == end;
    let l = choose|l: int|
        0 <= l < sections.len() && (#[trigger] sections[l]).spec_is_allocated() && sections[l].addr
            + sections[l].size == other_end;
    assert(sections[k].addr + sections[k].size <= other_end);
    assert(sections[l].addr + sections[l].size <= end);
}

/// The frames that the kernel starts with: those of `areas` without the
/// frames of the kernel image, from the lowest start to the highest end of
/// its loaded sections, and of the boot information.
pub open spec fn kernel_layout(
    areas: Seq<MemoryArea>,
    sections: Seq<ElfSection>,
    boot_info_start: u64,
    boot_info_end: u64,
) -> FrameLayout {
    let start = choose|start: u64| is_kernel_start(sections, start);
    let end = choose|end: u64| is_kernel_end(sections, end);
    FrameLayout {
        areas,
        kernel: (start as nat / 4096, end as nat / 4096),
        multiboot: (boot_info_start as nat / 4096, boot_info_end as nat / 4096),
    }
}

/// An allocator as the kernel starts with hands out the frames of the
/// kernel's layout.
pub proof fn lemma_initial_layout(
    allocator: AreaFrameAllocator,
    areas: Seq<MemoryArea>,
    sections: Seq<ElfSection>,
    boot_info_start: u64,
    boot_info_end: u64,
)
    requires
        is_initial_allocator(allocator, areas, sections, boot_info_start, boot_info_end),
    ensures
        allocator.layout() == kernel_layout(areas, sections, boot_info_start, boot_info_end),
{
    let (start, end) = choose|start: u64, end: u64|
        {
            &&& is_kernel_start(sections, start)
            &&& is_kernel_end(sections, end)
            &&& #[trigger] allocator.layout() == (FrameLayout {
                areas,
                kernel: (start as nat / 4096, end as nat / 4096),
                multiboot: (boot_info_start as nat / 4096, boot_info_end as nat / 4096),
            })
        };
    let chosen_start = choose|start: u64| is_kernel_start(sections, start);
    let chosen_end = choose|end: u64| is_kernel_end(sections, end);
    lemma_kernel_extent_unique(sections, start, chosen_start, end, chosen_end);
}

/// An allocator that has handed out nothing yet has `count` fresh frames
/// for a machine if its layout has that many free frames, each with an
/// address that fits an entry and none of them a table of the machine.
pub proof fn lemma_initial_supply(machine: MachineView, allocator: AreaFrameAllocator, count: nat)
    requires
        count >= 1,
        allocator.layout().nth_free(0, (count - 1) as nat).is_some(),
        forall|k: nat| #[trigger]
            allocator.upcoming(k) == match allocator.layout().nth_free(0, k) {
                Some(number) => Some(Frame::of(number)),
                None => None,
            },
        forall|number: nat| #[trigger]
            allocator.layout().is_free(number) ==> number < ENTRY_FRAME_LIMIT && !machine.is_table(
                number,
            ),
    ensures
        machine.has_fresh_frames(&allocator, 0, count),
{
    reveal(MachineView::has_fresh_frames);
    let layout = allocator.layout();
    let witness = Frame::of(0);
    witness.lemma_of();
    assert forall|k: nat| k < count implies (#[trigger] layout.nth_free(0, k)).is_some()
        && layout.is_free(layout.nth_free(0, k).unwrap()) && (#[trigger] allocator.upcoming(
        k,
    )).is_some() && allocator.upcoming(k).unwrap()@ == layout.nth_free(0, k).unwrap() by {
        if k < count - 1 {
            layout.lemma_nth_free_rises(0, k, (count - 1) as nat);
        }
        layout.lemma_nth_free_is_free(0, k);
        assert(Frame::of(layout.nth_free(0, k).unwrap())@ == layout.nth_free(0, k).unwrap());
    }
    assert forall|k: nat| 0 <= k < 0 + count implies (#[trigger] allocator.upcoming(k)).is_some()
        && allocator.upcoming(k).unwrap()@ < ENTRY_FRAME_LIMIT && !machine.is_table(
        allocator.upcoming(k).unwrap()@,
    ) by {
        assert(layout.nth_free(0, k).is_some());
    }
    assert forall|j: nat, k: nat| 0 <= j < k < 0 + count implies (#[trigger] allocator.upcoming(
        j,
    )).unwrap()@ != (#[trigger] allocator.upcoming(k)).unwrap()@ by {
        assert(layout.nth_free(0, k).is_some());
        assert(layout.nth_free(0, j).is_some());
        layout.lemma_nth_free_rises(0, j, k);
    }
}

impl MachineView {
    /// Whether the kernel's memory can be set up on the machine as the boot
    /// code leaves it: the memory areas are valid and a section is loaded;
    /// the layout of the free frames has `count` of them, enough for the
    /// kernel's hierarchy and the heap, each with an address that fits an
    /// entry and none a table; the kernel can be given a hierarchy of its
    /// own; and no page of the heap belongs to the kernel image.
    pub open spec fn can_set_up(
        self,
        areas: Seq<MemoryArea>,
        sections: Seq<ElfSection>,
        boot_info_start: u64,
        boot_info_end: u64,
        count: nat,
    ) -> bool {
        let layout = kernel_layout(areas, sections, boot_info_start, boot_info_end);
        &&& all_valid(areas)
        &&& has_kernel_extent(sections)
        &&& count >= 4 + 3 * image_frames(sections, boot_info_start, boot_info_end) + 4
            * HEAP_PAGES
        &&& layout.nth_free(0, (count - 1) as nat).is_some()
        &&& forall|number: nat| #[trigger]
            layout.is_free(number) ==> number < ENTRY_FRAME_LIMIT && !self.is_table(number)
        &&& self.is_tree()
        &&& self.root() == self.table_base
        &&& is_identity_number(self.table_base)
        &&& self.is_vacant(REMAP_PAGE as nat)
        &&& image_placed(sections, boot_info_start, boot_info_end)
        &&& image_apart(sections, boot_info_start, boot_info_end)
        &&& in_image(sections, boot_info_start, boot_info_end, self.table_base)
        &&& forall|page: nat|
            HEAP_START_PAGE <= page < HEAP_START_PAGE + HEAP_PAGES ==> !#[trigger] in_image(
                sections,
                boot_info_start,
                boot_info_end,
                page,
            )
    }

    /// The kernel's memory can be set up on the machine as the boot code
    /// leaves it: `init` can be called, and `try_init` gives a controller.
    pub proof fn lemma_can_start(
        self,
        areas: Seq<MemoryArea>,
        sections: Seq<ElfSection>,
        boot_info_start: u64,
        boot_info_end: u64,
        count: nat,
    )
        requires
            self.can_set_up(areas, sections, boot_info_start, boot_info_end, count),
        ensures
            can_start(self, areas, sections, boot_info_start, boot_info_end),
    {
        assert forall|allocator: AreaFrameAllocator|
            is_initial_allocator(
                allocator,
                areas,
                sections,
                boot_info_start,
                boot_info_end,
            ) implies #[trigger] self.can_init(
            sections,
            boot_info_start,
            boot_info_end,
            &allocator,
        ) by {
            self.lemma_set_up(allocator, areas, sections, boot_info_start, boot_info_end, count);
        }
    }

    /// The kernel's memory can be set up on the machine as the boot code
    /// leaves it, with every allocator that the kernel may start with. The
    /// address space is then the kernel image at its own addresses without
    /// the page of the old level-4 table, each page with the flags of its
    /// part of the image, and the heap, writable.
    pub proof fn lemma_set_up(
        self,
        allocator: AreaFrameAllocator,
        areas: Seq<MemoryArea>,
        sections: Seq<ElfSection>,
        boot_info_start: u64,
        boot_info_end: u64,
        count: nat,
    )
        requires
            self.can_set_up(areas, sections, boot_info_start, boot_info_end, count),
            is_initial_allocator(allocator, areas, sections, boot_info_start, boot_info_end),
        ensures
            self.can_init(sections, boot_info_start, boot_info_end, &allocator),
            ({
                let set_up = self.init(sections, boot_info_start, boot_info_end, &allocator).0;
                &&& set_up.is_tree()
                &&& set_up.table_base == allocator.upcoming(3).unwrap()@
                &&& forall|page: nat|
                    is_page_number(page) && p4_index_of(page) != 511 ==> #[trigger] set_up.mapping(
                        page,
                    ) == (if HEAP_START_PAGE <= page < HEAP_START_PAGE + HEAP_PAGES {
                        set_up.mapping(page)
                    } else if in_image(sections, boot_info_start, boot_info_end, page) && page
                        != self.table_base {
                        Some(page)
                    } else {
                        None
                    })
                &&& forall|page: nat|
                    HEAP_START_PAGE <= page < HEAP_START_PAGE + HEAP_PAGES ==> (
                    #[trigger] set_up.mapping(page)).is_some()
                &&& set_up.maps_range_with(HEAP_START_PAGE as nat, HEAP_PAGES as nat, WRITABLE)
                &&& forall|page: nat|
                    is_page_number(page) && p4_index_of(page) != 511 && page != self.table_base
                        ==> #[trigger] set_up.has_image_flags(
                        sections,
                        boot_info_start,
                        boot_info_end,
                        page,
                    )
            }),
    {
        lemma_initial_layout(allocator, areas, sections, boot_info_start, boot_info_end);
        lemma_initial_supply(self, allocator, count);
        self.lemma_rebuild(sections, boot_info_start, boot_info_end, &allocator, count);
        let steps = self.remap_steps(sections, boot_info_start, boot_info_end, &allocator);
        let done = steps.done;
        crate::memory::paging::entry::lemma_flag_bits();
        assert(done.is_vacant_range(HEAP_START_PAGE as nat, HEAP_PAGES as nat)) by {
            reveal(MachineView::is_vacant_range);
            assert forall|page: nat|
                HEAP_START_PAGE <= page < HEAP_START_PAGE + HEAP_PAGES implies (
            #[trigger] done.is_mappable(page)) by {
                assert(!in_image(sections, boot_info_start, boot_info_end, page));
                assert(done.is_vacant(page));
            }
        }
        done.lemma_map_range_in_tree(
            HEAP_START_PAGE as nat,
            HEAP_PAGES as nat,
            WRITABLE,
            &allocator,
            steps.used,
            (count - steps.used) as nat,
        );
        let set_up = self.init(sections, boot_info_start, boot_info_end, &allocator).0;
        assert forall|page: nat|
            is_page_number(page) && p4_index_of(page) != 511 && !(HEAP_START_PAGE <= page
                < HEAP_START_PAGE + HEAP_PAGES) implies #[trigger] set_up.mapping(page)
            == done.mapping(page) by {
            reveal(MachineView::agrees_outside);
        }
        assert forall|page: nat|
            HEAP_START_PAGE <= page < HEAP_START_PAGE + HEAP_PAGES implies (
        #[trigger] set_up.mapping(page)).is_some() by {
            reveal(MachineView::maps_range);
        }
        assert(set_up.table_base == done.table_base) by {
            reveal(MachineView::agrees_outside);
        }
        assert forall|page: nat|
            is_page_number(page) && p4_index_of(page) != 511 && page
                != self.table_base implies #[trigger] set_up.has_image_flags(
            sections,
            boot_info_start,
            boot_info_end,
            page,
        ) by {
            if HEAP_START_PAGE <= page < HEAP_START_PAGE + HEAP_PAGES {
                assert(!in_image(sections, boot_info_start, boot_info_end, page));
                assert forall|j: int| 0 <= j < sections.len() implies !in_run(
                    section_range(#[trigger] sections[j]),
                    page,
                ) by {}
            } else {
                assert(done.is_leaf_mapped(page) ==> done.keeps_leaf(set_up, page)) by {
                    reveal(MachineView::agrees_outside);
                }
                done.lemma_image_flags_kept(
                    set_up,
                    sections,
                    boot_info_start,
                    boot_info_end,
                    page,
                );
            }
        }
    }
}

} // verus!
