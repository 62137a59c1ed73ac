use kernel_memory::memory::paging::entry::{
    ElfSection, PageEntry, PageEntryFlags, ELF_SECTION_ALLOCATED, ELF_SECTION_EXECUTABLE,
    ELF_SECTION_WRITABLE, HUGE_PAGE, NO_EXECUTE, PRESENT, WRITABLE,
};
use kernel_memory::memory::Frame;

#[test]
fn fresh_entry_is_unused() {
    let entry = PageEntry(0);
    assert!(entry.is_unused());
    assert!(entry.pointed_frame().is_none());
    assert_eq!(entry.flags().bits(), 0);
}

#[test]
fn set_entry_holds_frame_and_flags() {
    let mut entry = PageEntry(0);
    let frame = Frame::containing_address(0xb8000);
    entry.set(frame, PageEntryFlags::from_bits_truncate(PRESENT | WRITABLE));
    assert_eq!(entry.0, 0xb8003);
    assert!(!entry.is_unused());
    assert_eq!(entry.pointed_frame().unwrap().number(), 0xb8);
    assert!(entry.flags().contains_bits(PRESENT));
    assert!(entry.flags().contains_bits(WRITABLE));
    assert!(!entry.flags().contains_bits(HUGE_PAGE));
    entry.set_unused();
    assert!(entry.is_unused());
}

#[test]
fn entry_without_present_points_nowhere() {
    let mut entry = PageEntry(0);
    entry.set(Frame::containing_address(0x5000), PageEntryFlags::from_bits_truncate(WRITABLE));
    assert_eq!(entry.0, 0x5002);
    assert!(entry.pointed_frame().is_none());
}

#[test]
fn flags_drop_bits_that_are_no_flags() {
    let flags = PageEntryFlags::from_bits_truncate(0xffff_ffff_ffff_ffff);
    assert_eq!(flags.bits(), 0x8000_0000_0000_01ff);
    let entry = PageEntry(0x000f_ffff_ffff_f000 | 0x21);
    assert_eq!(entry.flags().bits(), 0x21);
    assert_eq!(entry.pointed_frame().unwrap().number(), 0xff_ffff_ffff);
}

#[test]
fn flags_union_and_contains() {
    let present = PageEntryFlags::from_bits_truncate(PRESENT);
    let writable = PageEntryFlags::from_bits_truncate(WRITABLE);
    let both = present.union(writable);
    assert_eq!(both.bits(), 3);
    assert!(both.contains(present));
    assert!(both.contains(writable));
    assert!(!present.contains(both));
    assert!(PageEntryFlags::empty().bits() == 0);
}

#[test]
fn section_flags_give_entry_flags() {
    let section = |flags: u64| ElfSection { addr: 0x100000, size: 0x1000, flags };
    let text = PageEntryFlags::from_elf_section_flags(&section(
        ELF_SECTION_ALLOCATED | ELF_SECTION_EXECUTABLE,
    ));
    assert_eq!(text.bits(), PRESENT);
    let data = PageEntryFlags::from_elf_section_flags(&section(
        ELF_SECTION_ALLOCATED | ELF_SECTION_WRITABLE,
    ));
    assert_eq!(data.bits(), PRESENT | WRITABLE | NO_EXECUTE);
    let rodata = PageEntryFlags::from_elf_section_flags(&section(ELF_SECTION_ALLOCATED));
    assert_eq!(rodata.bits(), PRESENT | NO_EXECUTE);
    let debug = PageEntryFlags::from_elf_section_flags(&section(0));
    assert_eq!(debug.bits(), NO_EXECUTE);
    assert!(section(ELF_SECTION_ALLOCATED).is_allocated());
    assert!(!section(ELF_SECTION_WRITABLE).is_allocated());
}
