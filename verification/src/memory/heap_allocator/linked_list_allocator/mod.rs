//! A first-fit heap over an address-ordered list of free blocks.

use vstd::prelude::*;
use crate::memory::heap_allocator::{AllocErr, Layout};
use crate::memory::{align_up, lemma_align_up_properties, spec_align_up};
use self::hole::{
    carved, first_fit, is_free, is_used, placement, released, total, well_formed, HoleInfo,
    HoleList, MIN_SIZE,
};

pub mod hole;

verus! {

/// Sizes of requests are rounded up to a multiple of this: the alignment of
/// what a free block holds.
pub const HOLE_ALIGN: usize = 8;

/// The number of bytes that a request of `size` bytes takes from the heap:
/// at least the smallest block, rounded up to the alignment of a block.
pub open spec fn rounded_size(size: int) -> int {
    spec_align_up(
        if size < MIN_SIZE {
            MIN_SIZE as int
        } else {
            size
        },
        HOLE_ALIGN as int,
    )
}

/// Whether the heap can work on a request of this layout: its rounded size
/// and its alignment together are an address.
pub open spec fn is_request(layout: Layout) -> bool {
    layout.spec_size() + MIN_SIZE + HOLE_ALIGN + layout.spec_align() <= usize::MAX
}

/// A heap: a range of addresses and the blocks of it that are free.
pub struct Heap {
    bottom: usize,
    size: usize,
    holes: HoleList,
}

impl Heap {
    /// Address of the heap's first byte.
    pub closed spec fn spec_bottom(&self) -> usize {
        self.bottom
    }

    /// Number of bytes of the heap.
    pub closed spec fn spec_size(&self) -> usize {
        self.size
    }

    /// Address behind the heap's last byte.
    pub open spec fn spec_top(&self) -> int {
        self.spec_bottom() + self.spec_size()
    }

    /// The free blocks, lowest first.
    pub closed spec fn holes(&self) -> Seq<HoleInfo> {
        self.holes@
    }

    /// Whether the heap is in order: its range ends inside the address
    /// space, its free blocks form a well-formed list, and each of them lies
    /// in the range.
    pub open spec fn wf(&self) -> bool {
        &&& self.spec_top() <= usize::MAX
        &&& well_formed(self.holes())
        &&& forall|i: int|
            0 <= i < self.holes().len() ==> self.spec_bottom() <= (#[trigger] self.holes()[i]).addr
                && self.holes()[i].end() <= self.spec_top()
    }

    /// Whether the block of `size` bytes at `addr` lies in the heap and none
    /// of its bytes is free.
    pub open spec fn is_allocated(&self, addr: int, size: int) -> bool {
        &&& self.spec_bottom() <= addr
        &&& addr + size <= self.spec_top()
        &&& is_used(self.holes(), addr, size)
    }

    /// A heap without memory: every request fails.
    pub fn empty() -> (heap: Heap)
        ensures
            heap.wf(),
            heap.spec_bottom() == 0,
            heap.spec_size() == 0,
            heap.holes() == Seq::<HoleInfo>::empty(),
    {
        Heap { bottom: 0, size: 0, holes: HoleList::empty() }
    }

    /// Gives an empty heap its memory: `heap_size` bytes from `heap_bottom`
    /// on, all of them free.
    pub fn init(&mut self, heap_bottom: usize, heap_size: usize)
        requires
            old(self).spec_size() == 0,
            old(self).holes().len() == 0,
            heap_size >= MIN_SIZE,
            heap_bottom + heap_size <= usize::MAX,
        ensures
            final(self).wf(),
            final(self).spec_bottom() == heap_bottom,
            final(self).spec_size() == heap_size,
            final(self).holes() == seq![HoleInfo { addr: heap_bottom, size: heap_size }],
    {
        self.bottom = heap_bottom;
        self.size = heap_size;
        self.holes = HoleList::new(heap_bottom, heap_size);
    }

    /// A heap of `heap_size` bytes from `heap_bottom` on, all of them free.
    pub fn new(heap_bottom: usize, heap_size: usize) -> (heap: Heap)
        requires
            heap_size >= MIN_SIZE,
            heap_bottom + heap_size <= usize::MAX,
        ensures
            heap.wf(),
            heap.spec_bottom() == heap_bottom,
            heap.spec_size() == heap_size,
            heap.holes() == seq![HoleInfo { addr: heap_bottom, size: heap_size }],
            total(heap.holes()) == heap_size,
    {
        Heap { bottom: heap_bottom, size: heap_size, holes: HoleList::new(heap_bottom, heap_size) }
    }

    /// The request that the heap works on in place of `layout`: the size
    /// rounded, the alignment kept.
    pub fn rounded(layout: Layout) -> (request: Layout)
        requires
            is_request(layout),
        ensures
            request.spec_size() == rounded_size(layout.spec_size() as int),
            request.spec_align() == layout.spec_align(),
            request.spec_size() >= MIN_SIZE,
            request.spec_size() >= layout.spec_size(),
    {
        let mut size = layout.size();
        if size < HoleList::min_size() {
            size = HoleList::min_size();
        }
        proof {
            assert(crate::memory::is_power_of_two(HOLE_ALIGN)) by (bit_vector);
            lemma_align_up_properties(size as int, HOLE_ALIGN as int);
        }
        let size = align_up(size, HOLE_ALIGN);
        match Layout::from_size_align(size, layout.align()) {
            Some(request) => request,
            None => layout,
        }
    }

    /// Serves a request from the first free block that can serve it and
    /// returns the address of its first byte; the request takes its rounded
    /// size. Fails, with the heap unchanged, if no free block can serve it.
    pub fn allocate_first_fit(&mut self, layout: Layout) -> (result: Result<usize, AllocErr>)
        requires
            old(self).wf(),
            is_request(layout),
        ensures
            final(self).wf(),
            final(self).spec_bottom() == old(self).spec_bottom(),
            final(self).spec_size() == old(self).spec_size(),
            match first_fit(
                old(self).holes(),
                rounded_size(layout.spec_size() as int),
                layout.spec_align() as int,
            ) {
                Some(index) => result.is_ok() && result.unwrap() == placement(
                    old(self).holes()[index],
                    rounded_size(layout.spec_size() as int),
                    layout.spec_align() as int,
                ).unwrap() && final(self).holes() == carved(
                    old(self).holes(),
                    index,
                    result.unwrap() as int,
                    rounded_size(layout.spec_size() as int),
                ),
                None => result.is_err() && final(self).holes() == old(self).holes(),
            },
            result.is_err() ==> result.unwrap_err() == (AllocErr::Exhausted {
                request: Layout::spec_new(
                    rounded_size(layout.spec_size() as int) as usize,
                    layout.spec_align(),
                ),
            }),
            result.is_ok() ==> {
                &&& result.unwrap() % layout.spec_align() == 0
                &&& final(self).is_allocated(
                    result.unwrap() as int,
                    rounded_size(layout.spec_size() as int),
                )
                &&& forall|byte: int|
                    result.unwrap() <= byte < result.unwrap() + rounded_size(
                        layout.spec_size() as int,
                    ) ==> is_free(old(self).holes(), byte)
                &&& forall|byte: int| #[trigger]
                    is_free(final(self).holes(), byte) == (is_free(old(self).holes(), byte) && !(
                    result.unwrap() <= byte < result.unwrap() + rounded_size(
                        layout.spec_size() as int,
                    )))
                &&& total(final(self).holes()) == total(old(self).holes()) - rounded_size(
                    layout.spec_size() as int,
                )
            },
            rounded_size(layout.spec_size() as int) > total(old(self).holes()) ==> result.is_err(),
    {
        let request = Self::rounded(layout);
        let ghost before = self.holes@;
        let result = self.holes.allocate_first_fit(request);
        proof {
            request.lemma_is_new();
            if result.is_ok() {
                let start = result.unwrap() as int;
                let size = request.spec_size() as int;
                assert(is_free(before, start));
                let i = choose|i: int| 0 <= i < before.len() && (#[trigger] before[i]).holds(start);
                self::hole::lemma_run_in_one_block(before, i, start, start + size);
                assert forall|j: int| 0 <= j < self.holes@.len() implies self.spec_bottom() <= (
                #[trigger] self.holes@[j]).addr && self.holes@[j].end() <= self.spec_top() by {
                    let byte = self.holes@[j].addr as int;
                    assert(self.holes@[j].holds(byte));
                    assert(is_free(self.holes@, byte));
                    assert(is_free(before, byte));
                    let k = choose|k: int|
                        0 <= k < before.len() && (#[trigger] before[k]).holds(byte);
                    let last = self.holes@[j].end() - 1;
                    assert(self.holes@[j].holds(last));
                    assert(is_free(self.holes@, last));
                    assert(is_free(before, last));
                    let m = choose|m: int|
                        0 <= m < before.len() && (#[trigger] before[m]).holds(last);
                }
            }
        }
        result
    }

    /// Makes the block at `ptr` that served a request of this layout free
    /// again; it becomes one block with a free block that ends where it
    /// starts or starts where it ends.
    pub fn deallocate(&mut self, ptr: usize, layout: Layout)
        requires
            old(self).wf(),
            is_request(layout),
            old(self).is_allocated(ptr as int, rounded_size(layout.spec_size() as int)),
        ensures
            final(self).wf(),
            final(self).spec_bottom() == old(self).spec_bottom(),
            final(self).spec_size() == old(self).spec_size(),
            final(self).holes() == released(
                old(self).holes(),
                ptr as int,
                rounded_size(layout.spec_size() as int),
            ),
            forall|byte: int| #[trigger]
                is_free(final(self).holes(), byte) == (is_free(old(self).holes(), byte) || ptr
                    <= byte < ptr + rounded_size(layout.spec_size() as int)),
            total(final(self).holes()) == total(old(self).holes()) + rounded_size(
                layout.spec_size() as int,
            ),
    {
        let request = Self::rounded(layout);
        let ghost before = self.holes@;
        self.holes.deallocate(ptr, request.size());
        proof {
            self.lemma_blocks_in_range(before, ptr as int, request.spec_size() as int);
        }
    }

    /// Address of the heap's first byte.
    pub fn bottom(&self) -> (bottom: usize)
        ensures
            bottom == self.spec_bottom(),
    {
        self.bottom
    }

    /// Number of bytes of the heap.
    pub fn size(&self) -> (size: usize)
        ensures
            size == self.spec_size(),
    {
        self.size
    }

    /// Address behind the heap's last byte.
    pub fn top(&self) -> (top: usize)
        requires
            self.wf(),
        ensures
            top == self.spec_top(),
    {
        self.bottom + self.size
    }

    /// The free blocks, lowest first.
    pub fn free_blocks(&self) -> (holes: &Vec<HoleInfo>)
        ensures
            holes@ == self.holes(),
    {
        self.holes.holes()
    }

    /// Adds `by` bytes behind the heap's last byte to the heap, as free
    /// memory. The bytes are at least a block of the smallest size. The
    /// caller sees to it that there is memory at those addresses.
    pub fn extend(&mut self, by: usize)
        requires
            old(self).wf(),
            by >= MIN_SIZE,
            old(self).spec_top() + by <= usize::MAX,
        ensures
            final(self).wf(),
            final(self).spec_bottom() == old(self).spec_bottom(),
            final(self).spec_size() == old(self).spec_size() + by,
            final(self).holes() == released(old(self).holes(), old(self).spec_top(), by as int),
            total(final(self).holes()) == total(old(self).holes()) + by,
    {
        let top = self.top();
        let ghost before = self.holes@;
        self.holes.deallocate(top, by);
        self.size = self.size + by;
        proof {
            self.lemma_blocks_in_range(before, top as int, by as int);
        }
    }

    /// Blocks whose bytes were free before or belong to a range inside the
    /// heap lie in the heap.
    proof fn lemma_blocks_in_range(&self, before: Seq<HoleInfo>, addr: int, size: int)
        requires
            well_formed(self.holes()),
            self.spec_bottom() <= addr,
            size > 0,
            addr + size <= self.spec_top(),
            forall|i: int|
                0 <= i < before.len() ==> self.spec_bottom() <= (#[trigger] before[i]).addr
                    && before[i].end() <= self.spec_top(),
            forall|byte: int| #[trigger]
                is_free(self.holes(), byte) == (is_free(before, byte) || addr <= byte < addr
                    + size),
        ensures
            forall|i: int|
                0 <= i < self.holes().len() ==> self.spec_bottom() <= (
                #[trigger] self.holes()[i]).addr && self.holes()[i].end() <= self.spec_top(),
    {
        let holes = self.holes();
        assert forall|i: int| 0 <= i < holes.len() implies self.spec_bottom() <= (
        #[trigger] holes[i]).addr && holes[i].end() <= self.spec_top() by {
            let first = holes[i].addr as int;
            assert(holes[i].holds(first));
            assert(is_free(holes, first));
            if is_free(before, first) {
                let k = choose|k: int| 0 <= k < before.len() && (#[trigger] before[k]).holds(first);
            }
            let last = holes[i].end() - 1;
            assert(holes[i].holds(last));
            assert(is_free(holes, last));
            if is_free(before, last) {
                let k = choose|k: int| 0 <= k < before.len() && (#[trigger] before[k]).holds(last);
            }
        }
    }
}

} // verus!
