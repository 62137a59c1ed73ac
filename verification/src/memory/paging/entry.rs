//! One 64-bit page-table entry: flag bits and a page-aligned frame address.

use vstd::prelude::*;
use crate::memory::Frame;

verus! {

/// The entry maps something.
pub const PRESENT: u64 = 0x1;

/// Writes through the entry are allowed.
pub const WRITABLE: u64 = 0x2;

/// User-mode code may use the entry.
pub const USER_ACCESSIBLE: u64 = 0x4;

/// Writes go straight to memory.
pub const WRITE_THROUGH: u64 = 0x8;

/// The mapped memory is not cached.
pub const NO_CACHE: u64 = 0x10;

/// Set by the processor when the entry is used.
pub const ACCESSED: u64 = 0x20;

/// Set by the processor on a write through the entry.
pub const DIRTY: u64 = 0x40;

/// The entry maps a large page instead of pointing to a table.
pub const HUGE_PAGE: u64 = 0x80;

/// The translation survives a change of the table base.
pub const GLOBAL: u64 = 0x100;

/// Code in the mapped memory cannot be run.
pub const NO_EXECUTE: u64 = 0x8000_0000_0000_0000;

/// Every bit that is a flag.
pub const ALL_FLAGS: u64 = 0x8000_0000_0000_01ff;

/// The bits of an entry that hold the frame's address: bits 12 to 51.
pub const ADDRESS_MASK: u64 = 0x000f_ffff_ffff_f000;

/// Frames below this number have an address that fits an entry.
pub const ENTRY_FRAME_LIMIT: u64 = 0x100_0000_0000;

/// Section flag: the section may be written at run time.
pub const ELF_SECTION_WRITABLE: u64 = 0x1;

/// Section flag: the section occupies memory at run time.
pub const ELF_SECTION_ALLOCATED: u64 = 0x2;

/// Section flag: the section holds code.
pub const ELF_SECTION_EXECUTABLE: u64 = 0x4;

/// Whether the word of an entry has the present bit.
pub open spec fn word_present(word: u64) -> bool {
    word & PRESENT != 0
}

/// Whether the word of an entry has the huge-page bit.
pub open spec fn word_huge(word: u64) -> bool {
    word & HUGE_PAGE != 0
}

/// Number of the frame that the address bits of a word name.
pub open spec fn word_frame(word: u64) -> nat {
    ((word & ADDRESS_MASK) / 4096) as nat
}

/// The flag bits of a word.
pub open spec fn word_flags(word: u64) -> u64 {
    word & ALL_FLAGS
}

/// The word that points to frame `number` with the flag bits `flags`.
pub open spec fn make_word(number: nat, flags: u64) -> u64 {
    ((number * 4096) as u64) | flags
}

/// Where a present, addressable entry points, and with which flags.
pub proof fn lemma_make_word(number: u64, flags: u64)
    requires
        number < ENTRY_FRAME_LIMIT,
        flags & !ALL_FLAGS == 0,
    ensures
        word_frame(make_word(number as nat, flags)) == number,
        word_flags(make_word(number as nat, flags)) == flags,
        word_present(make_word(number as nat, flags)) == (flags & PRESENT != 0),
        word_huge(make_word(number as nat, flags)) == (flags & HUGE_PAGE != 0),
        word_frame(make_word(number as nat, flags)) < ENTRY_FRAME_LIMIT,
{
    let start: u64 = (number * 4096) as u64;
    let word: u64 = start | flags;
    assert(start == number * 4096 && ((word & 0x000f_ffff_ffff_f000) / 4096) == number && word
        & 0x8000_0000_0000_01ff == flags && (word & 1 != 0) == (flags & 1 != 0) && (word & 0x80
        != 0) == (flags & 0x80 != 0)) by (bit_vector)
        requires
            number < 0x100_0000_0000,
            flags & !0x8000_0000_0000_01ffu64 == 0,
            start == (number * 4096) as u64,
            word == start | flags,
    ;
}

/// What the flags that the tables are built with are as bits.
pub proof fn lemma_flag_bits()
    ensures
        PRESENT & !ALL_FLAGS == 0,
        WRITABLE & !ALL_FLAGS == 0,
        (PRESENT | WRITABLE) & !ALL_FLAGS == 0,
        (WRITABLE | PRESENT) & !ALL_FLAGS == 0,
        PRESENT & ALL_FLAGS == PRESENT,
        WRITABLE & ALL_FLAGS == WRITABLE,
        (PRESENT | WRITABLE) & ALL_FLAGS == PRESENT | WRITABLE,
        (PRESENT | WRITABLE) & PRESENT != 0,
        (WRITABLE | PRESENT) & PRESENT != 0,
        (PRESENT | PRESENT) & PRESENT != 0,
        (PRESENT | WRITABLE) & HUGE_PAGE == 0,
        (WRITABLE | PRESENT) & HUGE_PAGE == 0,
        (PRESENT | PRESENT) & HUGE_PAGE == 0,
        (PRESENT | PRESENT) & !ALL_FLAGS == 0,
        !word_present(0),
        !word_huge(0),
{
    assert(0x1u64 & !0x8000_0000_0000_01ffu64 == 0 && 0x2u64 & !0x8000_0000_0000_01ffu64 == 0 && (
    0x1u64 | 0x2) & !0x8000_0000_0000_01ffu64 == 0 && (0x2u64 | 0x1) & !0x8000_0000_0000_01ffu64
        == 0 && 0x1u64 & 0x8000_0000_0000_01ff == 0x1 && 0x2u64 & 0x8000_0000_0000_01ff == 0x2 && (
    0x1u64 | 0x2) & 0x8000_0000_0000_01ff == 0x1 | 0x2 && (0x1u64 | 0x2) & 0x1 != 0 && (0x2u64
        | 0x1) & 0x1 != 0 && (0x1u64 | 0x1) & 0x1 != 0 && (0x1u64 | 0x2) & 0x80 == 0 && (0x2u64
        | 0x1) & 0x80 == 0 && (0x1u64 | 0x1) & 0x80 == 0 && (0x1u64 | 0x1)
        & !0x8000_0000_0000_01ffu64 == 0 && 0u64 & 0x1 == 0 && 0u64 & 0x80 == 0) by (bit_vector);
}

/// Any word names a frame whose address fits an entry.
pub proof fn lemma_word_frame_bound(word: u64)
    ensures
        word_frame(word) < ENTRY_FRAME_LIMIT,
        word_flags(word) & !ALL_FLAGS == 0,
        word_present(0) == false,
        word_flags(word) & PRESENT != 0 <==> word_present(word),
        word_flags(word) & HUGE_PAGE != 0 <==> word_huge(word),
{
    assert((word & 0x000f_ffff_ffff_f000) / 4096 < 0x100_0000_0000 && (word
        & 0x8000_0000_0000_01ff) & !0x8000_0000_0000_01ffu64 == 0 && 0u64 & 1 == 0 && ((word
        & 0x8000_0000_0000_01ff) & 1 != 0 <==> word & 1 != 0) && ((word & 0x8000_0000_0000_01ff)
        & 0x80 != 0 <==> word & 0x80 != 0)) by (bit_vector);
}

/// A set of entry flags.
#[derive(Debug, Clone, Copy, PartialEq, Eq, Structural)]
pub struct PageEntryFlags {
    bits: u64,
}

impl View for PageEntryFlags {
    type V = u64;

    /// The flags as bits of an entry.
    closed spec fn view(&self) -> u64 {
        self.bits
    }
}

impl PageEntryFlags {
    #[verifier::type_invariant]
    spec fn only_flags(self) -> bool {
        self.bits & !ALL_FLAGS == 0
    }

    /// No flag at all.
    pub fn empty() -> (flags: PageEntryFlags)
        ensures
            flags@ == 0,
    {
        assert(0u64 & !0x8000_0000_0000_01ffu64 == 0) by (bit_vector);
        PageEntryFlags { bits: 0 }
    }

    /// The flags among `bits`; bits that are no flag are dropped.
    pub fn from_bits_truncate(bits: u64) -> (flags: PageEntryFlags)
        ensures
            flags@ == bits & ALL_FLAGS,
            flags@ & !ALL_FLAGS == 0,
    {
        assert((bits & 0x8000_0000_0000_01ff) & !0x8000_0000_0000_01ffu64 == 0) by (bit_vector);
        PageEntryFlags { bits: bits & ALL_FLAGS }
    }

    /// The flags as bits of an entry.
    pub fn bits(&self) -> (bits: u64)
        ensures
            bits == self@,
            bits & !ALL_FLAGS == 0,
    {
        proof {
            use_type_invariant(self);
        }
        self.bits
    }

    /// Whether every flag of `other` is set in `self`.
    pub fn contains(&self, other: PageEntryFlags) -> (all: bool)
        ensures
            all == (self@ & other@ == other@),
    {
        self.bits & other.bits == other.bits
    }

    /// Whether every bit of `mask` is set in `self`.
    pub fn contains_bits(&self, mask: u64) -> (all: bool)
        ensures
            all == (self@ & mask == mask),
    {
        self.bits & mask == mask
    }

    /// The flags of `self` together with those of `other`.
    pub fn union(self, other: PageEntryFlags) -> (flags: PageEntryFlags)
        ensures
            flags@ == self@ | other@,
    {
        proof {
            use_type_invariant(self);
            use_type_invariant(other);
        }
        let a = self.bits;
        let b = other.bits;
        assert((a | b) & !0x8000_0000_0000_01ffu64 == 0) by (bit_vector)
            requires
                a & !0x8000_0000_0000_01ffu64 == 0,
                b & !0x8000_0000_0000_01ffu64 == 0,
        ;
        PageEntryFlags { bits: a | b }
    }

    /// The entry flags for a section of the kernel image: present if the
    /// section is loaded, writable if the section is, and executable only if
    /// the section is marked so.
    pub fn from_elf_section_flags(section: &ElfSection) -> (flags: PageEntryFlags)
        ensures
            flags@ == section_entry_flags(section.flags),
    {
        let present: u64 = if section.flags & ELF_SECTION_ALLOCATED != 0 {
            PRESENT
        } else {
            0
        };
        let writable: u64 = if section.flags & ELF_SECTION_WRITABLE != 0 {
            WRITABLE
        } else {
            0
        };
        let no_execute: u64 = if section.flags & ELF_SECTION_EXECUTABLE == 0 {
            NO_EXECUTE
        } else {
            0
        };
        let bits: u64 = present | writable | no_execute;
        assert(bits == present + writable + no_execute && bits & !0x8000_0000_0000_01ffu64 == 0)
            by (bit_vector)
            requires
                present == 0 || present == 1,
                writable == 0 || writable == 2,
                no_execute == 0 || no_execute == 0x8000_0000_0000_0000,
                bits == present | writable | no_execute,
        ;
        PageEntryFlags { bits }
    }
}

/// The entry flags that belong to the section flags `flags`, as a number:
/// present (1) if allocated, writable (2) if writable, no-execute (bit 63)
/// unless executable.
pub open spec fn section_entry_flags(flags: u64) -> u64 {
    let present: int = if flags & ELF_SECTION_ALLOCATED != 0 {
        1
    } else {
        0
    };
    let writable: int = if flags & ELF_SECTION_WRITABLE != 0 {
        2
    } else {
        0
    };
    let no_execute: int = if flags & ELF_SECTION_EXECUTABLE == 0 {
        0x8000_0000_0000_0000
    } else {
        0
    };
    (present + writable + no_execute) as u64
}

/// What the boot loader reports of one section of the kernel image.
#[derive(Debug, Clone, Copy, PartialEq, Eq, Structural)]
pub struct ElfSection {
    /// Address at which the section is loaded.
    pub addr: u64,
    /// Size of the section in bytes.
    pub size: u64,
    /// The section's flags, as the image's section header holds them.
    pub flags: u64,
}

impl ElfSection {
    /// Whether the section occupies memory at run time.
    pub open spec fn spec_is_allocated(&self) -> bool {
        self.flags & ELF_SECTION_ALLOCATED != 0
    }

    /// Whether the section occupies memory at run time.
    #[verifier::when_used_as_spec(spec_is_allocated)]
    pub fn is_allocated(&self) -> (allocated: bool)
        ensures
            allocated == self.spec_is_allocated(),
    {
        self.flags & ELF_SECTION_ALLOCATED != 0
    }
}

/// One entry of a page table.
#[derive(Debug, Clone, Copy, PartialEq, Eq, Structural)]
pub struct PageEntry(pub u64);

impl View for PageEntry {
    type V = u64;

    /// The entry's word.
    open spec fn view(&self) -> u64 {
        self.0
    }
}

/// The frame that a word points to: the one its address bits name, if the
/// word is present.
pub open spec fn word_pointed_frame(word: u64) -> Option<nat> {
    if word_present(word) {
        Some(word_frame(word))
    } else {
        None
    }
}

impl PageEntry {
    /// Whether the entry is all zero.
    pub fn is_unused(&self) -> (unused: bool)
        ensures
            unused == (self@ == 0),
    {
        self.0 == 0
    }

    /// Clears the entry.
    pub fn set_unused(&mut self)
        ensures
            final(self)@ == 0,
    {
        self.0 = 0;
    }

    /// The entry's flags.
    pub fn flags(&self) -> (flags: PageEntryFlags)
        ensures
            flags@ == word_flags(self@),
            (flags@ & PRESENT == PRESENT) == word_present(self@),
            (flags@ & HUGE_PAGE == HUGE_PAGE) == word_huge(self@),
    {
        let word = self.0;
        assert(((word & 0x8000_0000_0000_01ff) & 1 == 1) == (word & 1 != 0) && ((word
            & 0x8000_0000_0000_01ff) & 0x80 == 0x80) == (word & 0x80 != 0)) by (bit_vector);
        PageEntryFlags::from_bits_truncate(self.0)
    }

    /// The frame that the entry points to, if the entry is present.
    pub fn pointed_frame(&self) -> (frame: Option<Frame>)
        ensures
            frame.is_some() == word_present(self@),
            frame.is_some() ==> frame.unwrap()@ == word_frame(self@),
            frame.is_some() ==> frame.unwrap()@ < ENTRY_FRAME_LIMIT,
    {
        if self.flags().contains_bits(PRESENT) {
            proof {
                lemma_word_frame_bound(self.0);
            }
            Some(Frame::containing_address(self.0 & ADDRESS_MASK))
        } else {
            None
        }
    }

    /// Points the entry to `frame` with exactly the flags `flags`. The
    /// frame's address has to fit the address bits of an entry.
    pub fn set(&mut self, frame: Frame, flags: PageEntryFlags)
        requires
            frame@ < ENTRY_FRAME_LIMIT,
        ensures
            final(self)@ == make_word(frame@, flags@),
            word_frame(final(self)@) == frame@,
            word_flags(final(self)@) == flags@,
    {
        let number = frame.number();
        let bits = flags.bits();
        proof {
            lemma_make_word(number, bits);
        }
        self.0 = frame.start_address() | bits;
    }
}

} // verus!
