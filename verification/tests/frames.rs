use kernel_memory::memory::area_frame_allocator::{choose_next_area, AreaFrameAllocator, MemoryArea};
use kernel_memory::memory::paging::temporary_page::TinyAllocator;
use kernel_memory::memory::{Frame, FrameAllocator};

fn numbers(allocator: &mut AreaFrameAllocator, count: usize) -> Vec<u64> {
    let mut numbers = Vec::new();
    for _ in 0..count {
        match allocator.allocate_frame() {
            Some(frame) => numbers.push(frame.number()),
            None => break,
        }
    }
    numbers
}

#[test]
fn frames_skip_the_kernel() {
    let areas = vec![MemoryArea { base_addr: 0, length: 0x100000 }];
    let mut allocator = AreaFrameAllocator::new(0x10000, 0x20000, 0xff000, 0xff000, areas);
    let first = allocator.allocate_frame().unwrap();
    assert_eq!(first.number(), 0);
    let mut last = 0;
    let mut count = 1;
    while let Some(frame) = allocator.allocate_frame() {
        let address = frame.start_address();
        assert!(!(0x10000..0x20000).contains(&address));
        assert!(frame.number() > last);
        last = frame.number();
        count += 1;
    }
    // 256 frames, without 0x10 to 0x20 and without 0xff.
    assert_eq!(count, 256 - 17 - 1);
    assert_eq!(last, 0xfe);
    assert!(allocator.allocate_frame().is_none());
}

#[test]
fn frames_jump_over_the_kernel_in_the_middle_of_an_area() {
    let areas = vec![MemoryArea { base_addr: 0, length: 0x100000 }];
    let mut allocator = AreaFrameAllocator::new(0x10000, 0x20000, 0x200000, 0x200000, areas);
    let got = numbers(&mut allocator, 18);
    let mut expected: Vec<u64> = (0..16).collect();
    expected.push(0x21);
    expected.push(0x22);
    assert_eq!(got, expected);
}

#[test]
fn frames_go_through_the_areas_by_base_address() {
    let areas = vec![
        MemoryArea { base_addr: 0x10000, length: 0x2000 },
        MemoryArea { base_addr: 0x1000, length: 0x2000 },
        MemoryArea { base_addr: 0x5800, length: 0x1000 },
    ];
    let mut allocator =
        AreaFrameAllocator::new(0x400000, 0x400fff, 0x500000, 0x500fff, areas);
    assert_eq!(numbers(&mut allocator, 10), vec![1, 2, 5, 6, 0x10, 0x11]);
    assert!(allocator.allocate_frame().is_none());
    assert!(allocator.allocate_frame().is_none());
}

#[test]
fn frames_skip_the_boot_information() {
    let areas = vec![MemoryArea { base_addr: 0, length: 0x8000 }];
    let mut allocator = AreaFrameAllocator::new(0x100000, 0x100000, 0x2000, 0x3fff, areas);
    assert_eq!(numbers(&mut allocator, 10), vec![0, 1, 4, 5, 6, 7]);
}

#[test]
fn no_areas_no_frames() {
    let mut allocator = AreaFrameAllocator::new(0, 0, 0, 0, Vec::new());
    assert!(allocator.allocate_frame().is_none());
}

#[test]
fn area_allocator_forgets_frames_given_back() {
    let areas = vec![MemoryArea { base_addr: 0, length: 0x3000 }];
    let mut allocator = AreaFrameAllocator::new(0x100000, 0x100000, 0x200000, 0x200000, areas);
    let first = allocator.allocate_frame().unwrap();
    assert_eq!(first.number(), 0);
    allocator.deallocate_frame(first);
    assert_eq!(numbers(&mut allocator, 5), vec![1, 2]);
}

#[test]
fn next_area_is_the_lowest_that_reaches_the_cursor() {
    let areas = vec![
        MemoryArea { base_addr: 0x9000, length: 0x1000 },
        MemoryArea { base_addr: 0x1000, length: 0x1000 },
        MemoryArea { base_addr: 0x4000, length: 0x2000 },
    ];
    assert_eq!(choose_next_area(&areas, 0), (Some(1), 1));
    assert_eq!(choose_next_area(&areas, 2), (Some(2), 4));
    assert_eq!(choose_next_area(&areas, 5), (Some(2), 5));
    assert_eq!(choose_next_area(&areas, 6), (Some(0), 9));
    assert_eq!(choose_next_area(&areas, 10), (None, 10));
}

#[test]
fn area_frames() {
    let area = MemoryArea { base_addr: 0x1800, length: 0x1000 };
    assert_eq!(area.first_frame(), 1);
    assert_eq!(area.last_frame(), 2);
}

#[test]
fn frame_range_hands_out_each_frame_once() {
    let mut frames = Frame::range_inclusive(
        Frame::containing_address(0x3000),
        Frame::containing_address(0x5fff),
    );
    assert_eq!(frames.len(), 3);
    assert_eq!(frames.next().unwrap().number(), 3);
    assert_eq!(frames.next().unwrap().number(), 4);
    assert_eq!(frames.next().unwrap().number(), 5);
    assert!(frames.next().is_none());
    assert_eq!(frames.len(), 0);
    let mut empty = Frame::range_inclusive(
        Frame::containing_address(0x5000),
        Frame::containing_address(0x3000),
    );
    assert!(empty.next().is_none());
}

#[test]
fn frame_numbers_have_a_limit() {
    assert!(Frame::from_number(0xf_ffff_ffff_ffff).is_some());
    assert!(Frame::from_number(0x10_0000_0000_0000).is_none());
    assert_eq!(Frame::containing_address(u64::MAX).number(), 0xf_ffff_ffff_ffff);
    assert_eq!(Frame::containing_address(u64::MAX).end_address(), u64::MAX);
    let frame = Frame::containing_address(0x7000);
    assert_eq!(frame.clone(), frame);
}

#[test]
fn tiny_allocator_holds_three_frames() {
    let areas = vec![MemoryArea { base_addr: 0, length: 0x10000 }];
    let mut outer = AreaFrameAllocator::new(0x100000, 0x100000, 0x200000, 0x200000, areas);
    let mut tiny = TinyAllocator::new(&mut outer);
    assert_eq!(outer.allocate_frame().unwrap().number(), 3);
    let first = tiny.allocate_frame().unwrap();
    assert_eq!(first.number(), 0);
    assert_eq!(tiny.allocate_frame().unwrap().number(), 1);
    tiny.deallocate_frame(first);
    assert_eq!(tiny.allocate_frame().unwrap().number(), 0);
    assert_eq!(tiny.allocate_frame().unwrap().number(), 2);
    assert!(tiny.allocate_frame().is_none());
}

#[test]
fn tiny_allocator_of_a_short_supply() {
    let areas = vec![MemoryArea { base_addr: 0, length: 0x2000 }];
    let mut outer = AreaFrameAllocator::new(0x100000, 0x100000, 0x200000, 0x200000, areas);
    let mut tiny = TinyAllocator::new(&mut outer);
    assert_eq!(tiny.allocate_frame().unwrap().number(), 0);
    assert_eq!(tiny.allocate_frame().unwrap().number(), 1);
    assert!(tiny.allocate_frame().is_none());
}
