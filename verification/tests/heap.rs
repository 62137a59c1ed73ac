use kernel_memory::memory::heap_allocator::linked_list_allocator::hole::{
    split_hole, HoleInfo, HoleList,
};
use kernel_memory::memory::heap_allocator::linked_list_allocator::Heap;
use kernel_memory::memory::heap_allocator::{AllocErr, BumpAllocator, Layout};

fn layout(size: usize, align: usize) -> Layout {
    Layout::from_size_align(size, align).unwrap()
}

fn free_bytes(heap: &Heap) -> usize {
    heap.free_blocks().iter().map(|hole| hole.size).sum()
}

fn holes(heap: &Heap) -> Vec<(usize, usize)> {
    heap.free_blocks().iter().map(|hole| (hole.addr, hole.size)).collect()
}

#[test]
fn layouts() {
    assert!(Layout::from_size_align(10, 8).is_some());
    assert!(Layout::from_size_align(10, 0).is_none());
    assert!(Layout::from_size_align(10, 3).is_none());
    assert!(Layout::from_size_align(usize::MAX, 2).is_none());
    let l = layout(24, 16);
    assert_eq!(l.size(), 24);
    assert_eq!(l.align(), 16);
}

#[test]
fn empty_heap_serves_nothing() {
    let mut heap = Heap::empty();
    assert_eq!(heap.bottom(), 0);
    assert_eq!(heap.size(), 0);
    assert_eq!(heap.top(), 0);
    assert_eq!(
        heap.allocate_first_fit(layout(1, 1)),
        Err(AllocErr::Exhausted { request: layout(16, 1) })
    );
}

#[test]
fn init_gives_an_empty_heap_its_memory() {
    let mut heap = Heap::empty();
    heap.init(0x1000, 0x1000);
    assert_eq!(heap.bottom(), 0x1000);
    assert_eq!(heap.size(), 0x1000);
    assert_eq!(heap.top(), 0x2000);
    assert_eq!(holes(&heap), vec![(0x1000, 0x1000)]);
}

#[test]
fn first_fit_takes_the_front_of_the_first_hole() {
    let mut heap = Heap::new(0x1000, 0x1000);
    assert_eq!(heap.allocate_first_fit(layout(32, 8)), Ok(0x1000));
    assert_eq!(holes(&heap), vec![(0x1020, 0xfe0)]);
    assert_eq!(heap.allocate_first_fit(layout(1, 1)), Ok(0x1020));
    assert_eq!(holes(&heap), vec![(0x1030, 0xfd0)]);
    assert_eq!(heap.allocate_first_fit(layout(17, 1)), Ok(0x1030));
    assert_eq!(holes(&heap), vec![(0x1048, 0xfb8)]);
}

#[test]
fn alignment_leaves_a_hole_in_front() {
    let mut heap = Heap::new(0x1008, 0x1000);
    assert_eq!(heap.allocate_first_fit(layout(64, 64)), Ok(0x1040));
    assert_eq!(holes(&heap), vec![(0x1008, 0x38), (0x1080, 0xf88)]);
}

#[test]
fn allocate_then_deallocate_restores_the_heap() {
    let mut heap = Heap::new(0x1008, 0x1000);
    assert_eq!(heap.allocate_first_fit(layout(100, 8)), Ok(0x1008));
    let before = holes(&heap);
    let free = free_bytes(&heap);
    for (size, align) in [(1, 1), (16, 8), (100, 64), (24, 256), (0x800, 16)] {
        let l = layout(size, align);
        let address = heap.allocate_first_fit(l).unwrap();
        assert_eq!(address % align, 0);
        assert!(free_bytes(&heap) < free);
        heap.deallocate(address, l);
        assert_eq!(free_bytes(&heap), free);
        assert_eq!(holes(&heap), before);
    }
}

#[test]
fn too_large_a_request_fails_and_changes_nothing() {
    let mut heap = Heap::new(0x1000, 0x1000);
    let a = heap.allocate_first_fit(layout(0x100, 8)).unwrap();
    let b = heap.allocate_first_fit(layout(0x100, 8)).unwrap();
    let before = holes(&heap);
    assert_eq!(
        heap.allocate_first_fit(layout(0x1000, 8)),
        Err(AllocErr::Exhausted { request: layout(0x1000, 8) })
    );
    assert_eq!(
        heap.allocate_first_fit(layout(0xe01, 8)),
        Err(AllocErr::Exhausted { request: layout(0xe08, 8) })
    );
    assert_eq!(holes(&heap), before);
    heap.deallocate(a, layout(0x100, 8));
    heap.deallocate(b, layout(0x100, 8));
    assert_eq!(holes(&heap), vec![(0x1000, 0x1000)]);
}

#[test]
fn a_rest_that_is_too_small_disqualifies_a_hole() {
    let mut heap = Heap::new(0x1000, 0x40);
    // 0x38 bytes would leave 8 bytes behind them.
    assert!(heap.allocate_first_fit(layout(0x38, 8)).is_err());
    assert_eq!(heap.allocate_first_fit(layout(0x40, 8)), Ok(0x1000));
    assert_eq!(holes(&heap), vec![]);
    heap.deallocate(0x1000, layout(0x40, 8));
    assert_eq!(holes(&heap), vec![(0x1000, 0x40)]);
}

#[test]
fn neighbours_become_one_hole_in_either_order() {
    for lower_first in [true, false] {
        let mut heap = Heap::new(0x1000, 0x1000);
        let a = heap.allocate_first_fit(layout(0x100, 8)).unwrap();
        let b = heap.allocate_first_fit(layout(0x200, 8)).unwrap();
        let c = heap.allocate_first_fit(layout(0x100, 8)).unwrap();
        let d = heap.allocate_first_fit(layout(0x100, 8)).unwrap();
        assert_eq!((a, b, c, d), (0x1000, 0x1100, 0x1300, 0x1400));
        if lower_first {
            heap.deallocate(b, layout(0x200, 8));
            assert_eq!(holes(&heap), vec![(0x1100, 0x200), (0x1500, 0xb00)]);
            heap.deallocate(c, layout(0x100, 8));
        } else {
            heap.deallocate(c, layout(0x100, 8));
            assert_eq!(holes(&heap), vec![(0x1300, 0x100), (0x1500, 0xb00)]);
            heap.deallocate(b, layout(0x200, 8));
        }
        assert_eq!(holes(&heap), vec![(0x1100, 0x300), (0x1500, 0xb00)]);
        // The block between two holes joins both.
        heap.deallocate(d, layout(0x100, 8));
        assert_eq!(holes(&heap), vec![(0x1100, 0xf00)]);
        heap.deallocate(a, layout(0x100, 8));
        assert_eq!(holes(&heap), vec![(0x1000, 0x1000)]);
    }
}

#[test]
fn first_fit_skips_holes_that_are_too_small() {
    let mut heap = Heap::new(0x1000, 0x1000);
    let a = heap.allocate_first_fit(layout(0x20, 8)).unwrap();
    let _b = heap.allocate_first_fit(layout(0x20, 8)).unwrap();
    heap.deallocate(a, layout(0x20, 8));
    assert_eq!(holes(&heap), vec![(0x1000, 0x20), (0x1040, 0xfc0)]);
    assert_eq!(heap.allocate_first_fit(layout(0x40, 8)), Ok(0x1040));
    assert_eq!(heap.allocate_first_fit(layout(0x20, 8)), Ok(0x1000));
}

#[test]
fn extend_adds_memory_behind_the_top() {
    let mut heap = Heap::new(0x1000, 0x100);
    heap.extend(0x100);
    assert_eq!(heap.size(), 0x200);
    assert_eq!(heap.top(), 0x1200);
    assert_eq!(holes(&heap), vec![(0x1000, 0x200)]);
    let a = heap.allocate_first_fit(layout(0x200, 8)).unwrap();
    assert_eq!(a, 0x1000);
    heap.extend(0x80);
    assert_eq!(holes(&heap), vec![(0x1200, 0x80)]);
    assert_eq!(heap.top(), 0x1280);
}

#[test]
fn hole_list_alone() {
    assert_eq!(HoleList::min_size(), 16);
    let mut list = HoleList::new(0x110, 0x100);
    assert_eq!(list.allocate_first_fit(layout(0x20, 0x80)), Ok(0x180));
    assert_eq!(
        list.holes().clone(),
        vec![HoleInfo { addr: 0x110, size: 0x70 }, HoleInfo { addr: 0x1a0, size: 0x70 }]
    );
    list.deallocate(0x180, 0x20);
    assert_eq!(list.holes().clone(), vec![HoleInfo { addr: 0x110, size: 0x100 }]);
    let mut empty = HoleList::empty();
    assert!(empty.allocate_first_fit(layout(16, 1)).is_err());
    empty.deallocate(0x40, 0x20);
    assert_eq!(empty.holes().clone(), vec![HoleInfo { addr: 0x40, size: 0x20 }]);
}

#[test]
fn placement_in_a_hole() {
    let hole = HoleInfo { addr: 0x1008, size: 0x100 };
    assert_eq!(split_hole(hole, 0x20, 8), Some(0x1008));
    assert_eq!(split_hole(hole, 0x100, 8), Some(0x1008));
    assert_eq!(split_hole(hole, 0xf8, 8), None);
    assert_eq!(split_hole(hole, 0x108, 8), None);
    // Not aligned: the request starts at the first aligned address that
    // leaves sixteen bytes in front.
    assert_eq!(split_hole(hole, 0x20, 16), Some(0x1020));
    assert_eq!(split_hole(hole, 0x20, 0x40), Some(0x1040));
    assert_eq!(split_hole(hole, 0x20, 0x1000), None);
    let high = HoleInfo { addr: usize::MAX - 0x107, size: 0x100 };
    assert_eq!(split_hole(high, 0x20, 0x1000), None);
}

#[test]
fn bump_allocator_moves_forward() {
    let mut bump = BumpAllocator::new(0x1001, 0x1100);
    assert_eq!(bump.allocate(layout(0x10, 8)), Ok(0x1008));
    assert_eq!(bump.allocate(layout(0x10, 0x40)), Ok(0x1040));
    bump.deallocate(0x1008, layout(0x10, 8));
    assert_eq!(bump.allocate(layout(0x10, 1)), Ok(0x1050));
    assert_eq!(
        bump.allocate(layout(0xa1, 1)),
        Err(AllocErr::Exhausted { request: layout(0xa1, 1) })
    );
    assert_eq!(bump.allocate(layout(0xa0, 1)), Ok(0x1060));
    assert!(bump.allocate(layout(1, 1)).is_err());
}
