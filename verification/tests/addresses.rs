use kernel_memory::memory::paging::Page;
use kernel_memory::memory::{align_down, align_up, Frame};

#[test]
fn page_contains_its_address() {
    for address in [0u64, 1, 4095, 4096, 0xb8000, 0xcafebabe123, 0x7fff_ffff_ffff, 0xffff_8000_0000_0000, 0xffff_ffff_ffff_ffff] {
        let page = Page::containing_address(address);
        assert!(page.start_address() <= address);
        assert!(address - page.start_address() < 4096);
    }
}

#[test]
fn frame_addresses() {
    let frame = Frame::containing_address(0xb8123);
    assert_eq!(frame.number(), 0xb8);
    assert_eq!(frame.start_address(), 0xb8000);
    assert_eq!(frame.end_address(), 0xb8fff);
}

#[test]
fn align_down_and_up() {
    assert_eq!(align_down(0x1234, 0x1000), 0x1000);
    assert_eq!(align_down(0x1000, 0x1000), 0x1000);
    assert_eq!(align_down(77, 0), 77);
    assert_eq!(align_down(77, 1), 77);
    assert_eq!(align_up(0x1234, 0x1000), 0x2000);
    assert_eq!(align_up(0x1000, 0x1000), 0x1000);
    assert_eq!(align_up(17, 8), 24);
    assert_eq!(align_up(5, 0), 4);
}
