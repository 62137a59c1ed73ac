//! Allocators for the kernel heap: what a request looks like, how it fails,
//! and an allocator that only ever moves forward.

use vstd::prelude::*;
use crate::memory::{align_up, is_power_of_two, spec_align_up};

pub mod linked_list_allocator;

verus! {

/// A request for memory: a number of bytes and the alignment of the first.
#[derive(Debug, Clone, Copy, PartialEq, Eq, Structural)]
pub struct Layout {
    size: usize,
    align: usize,
}

impl Layout {
    #[verifier::type_invariant]
    spec fn well_formed(self) -> bool {
        Self::is_valid(self.size, self.align)
    }

    /// Whether `size` and `align` make a layout: the alignment is a power
    /// of two, and the size together with the alignment is an address.
    pub open spec fn is_valid(size: usize, align: usize) -> bool {
        is_power_of_two(align) && size + align <= usize::MAX
    }

    /// Number of bytes asked for.
    pub closed spec fn spec_size(&self) -> usize {
        self.size
    }

    /// Alignment asked for.
    pub closed spec fn spec_align(&self) -> usize {
        self.align
    }

    /// The layout of `size` bytes aligned to `align`.
    pub closed spec fn spec_new(size: usize, align: usize) -> Layout {
        Layout { size, align }
    }

    /// A layout is its size and its alignment.
    pub proof fn lemma_is_new(self)
        ensures
            self == Self::spec_new(self.spec_size(), self.spec_align()),
    {
    }

    /// The layout of `size` bytes aligned to `align`, if the two make one.
    pub fn from_size_align(size: usize, align: usize) -> (layout: Option<Layout>)
        ensures
            layout.is_some() == Self::is_valid(size, align),
            layout.is_some() ==> layout.unwrap().spec_size() == size && layout.unwrap().spec_align()
                == align,
    {
        if align != 0 && align & (align - 1) == 0 && size <= usize::MAX - align {
            Some(Layout { size, align })
        } else {
            None
        }
    }

    /// Number of bytes asked for.
    #[verifier::when_used_as_spec(spec_size)]
    pub fn size(&self) -> (size: usize)
        ensures
            size == self.spec_size(),
            Self::is_valid(self.spec_size(), self.spec_align()),
    {
        proof {
            use_type_invariant(self);
        }
        self.size
    }

    /// Alignment asked for.
    #[verifier::when_used_as_spec(spec_align)]
    pub fn align(&self) -> (align: usize)
        ensures
            align == self.spec_align(),
            Self::is_valid(self.spec_size(), self.spec_align()),
    {
        proof {
            use_type_invariant(self);
        }
        self.align
    }
}

/// Why a request for memory failed.
#[derive(Debug, Clone, Copy, PartialEq, Eq, Structural)]
pub enum AllocErr {
    /// No free memory fits the request.
    Exhausted {
        /// The request that failed.
        request: Layout,
    },
}

/// An allocator that hands out the memory between two addresses from the
/// low end and never takes any back.
#[derive(Debug)]
pub struct BumpAllocator {
    heap_start: usize,
    heap_end: usize,
    next: usize,
}

impl BumpAllocator {
    /// Address of the first byte of the allocator's memory.
    pub closed spec fn heap_start(&self) -> usize {
        self.heap_start
    }

    /// Address behind the last byte of the allocator's memory.
    pub closed spec fn heap_end(&self) -> usize {
        self.heap_end
    }

    /// Address from which the next request is served.
    pub closed spec fn next(&self) -> usize {
        self.next
    }

    /// An allocator for the memory from `heap_start` up to `heap_end`.
    pub fn new(heap_start: usize, heap_end: usize) -> (allocator: BumpAllocator)
        ensures
            allocator.heap_start() == heap_start,
            allocator.heap_end() == heap_end,
            allocator.next() == heap_start,
    {
        BumpAllocator { heap_start, heap_end, next: heap_start }
    }

    /// Where a request would end: behind `size` bytes from the next address,
    /// aligned up; the highest address if that lies beyond it.
    pub open spec fn end_of(&self, layout: Layout) -> int {
        let end = spec_align_up(self.next() as int, layout.spec_align() as int)
            + layout.spec_size();
        if end > usize::MAX {
            usize::MAX as int
        } else {
            end
        }
    }

    /// Serves a request from the next address, aligned up, and moves the
    /// next address behind it. Fails, with nothing changed, if the request
    /// would end behind the allocator's memory. Aligning the next address
    /// must not run past the highest address.
    pub fn allocate(&mut self, layout: Layout) -> (result: Result<usize, AllocErr>)
        requires
            old(self).next() + layout.spec_align() <= usize::MAX,
        ensures
            final(self).heap_start() == old(self).heap_start(),
            final(self).heap_end() == old(self).heap_end(),
            old(self).end_of(layout) <= old(self).heap_end() ==> result == Ok::<usize, AllocErr>(
                spec_align_up(old(self).next() as int, layout.spec_align() as int) as usize,
            ) && final(self).next() == old(self).end_of(layout),
            old(self).end_of(layout) > old(self).heap_end() ==> result == Err::<usize, AllocErr>(
                AllocErr::Exhausted { request: layout },
            ) && final(self).next() == old(self).next(),
    {
        let current_next = self.next;
        let alloc_start = align_up(current_next, layout.align());
        let alloc_end = alloc_start.saturating_add(layout.size());
        if alloc_end <= self.heap_end {
            self.next = alloc_end;
            Ok(alloc_start)
        } else {
            Err(AllocErr::Exhausted { request: layout })
        }
    }

    /// Takes memory back without making it available again.
    pub fn deallocate(&mut self, ptr: usize, layout: Layout)
        ensures
            *final(self) == *old(self),
    {
    }
}

} // verus!
