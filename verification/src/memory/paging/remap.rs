//! What goes into the kernel's own address space: the loaded sections of
//! the kernel image, the boot information and the text screen.

use vstd::prelude::*;
use crate::memory::{Frame, FrameAllocator};
use crate::memory::paging::entry::{
    section_entry_flags, ElfSection, PageEntryFlags, ALL_FLAGS, PRESENT, WRITABLE,
};
use crate::memory::paging::machine::MachineView;
use crate::memory::paging::mapper::Mapper;
use crate::memory::paging::table::supply_advanced;
use crate::memory::paging::{is_page_number, p4_index_of, TableEdit};

verus! {

/// Number of the frame that holds the text screen.
pub const VGA_FRAME: u64 = 0xb8;

/// How many frames lie between `first` and `last`, both included.
pub open spec fn frames_between(first: nat, last: nat) -> nat {
    if first <= last {
        (last - first + 1) as nat
    } else {
        0
    }
}

/// Whether a section can be mapped: one that is loaded starts at a page
/// boundary and has a last byte whose address fits.
pub open spec fn section_fits(section: ElfSection) -> bool {
    section.spec_is_allocated() ==> section.addr % 4096 == 0 && 1 <= section.addr + section.size
        <= u64::MAX
}

/// Number of the frame that holds the first byte of a section.
pub open spec fn section_first_frame(section: ElfSection) -> nat {
    section.addr as nat / 4096
}

/// Number of the frame that holds the last byte of a section.
pub open spec fn section_last_frame(section: ElfSection) -> nat {
    ((section.addr + section.size - 1) / 4096) as nat
}

/// What has to be mapped for the kernel to run in a hierarchy of its own.
pub struct KernelImage {
    /// The sections of the kernel image, as the boot loader reports them.
    pub sections: Vec<ElfSection>,
    /// Address of the first byte of the boot information.
    pub boot_info_start: u64,
    /// Address behind the last byte of the boot information.
    pub boot_info_end: u64,
}

impl MachineView {
    /// The machine after the loaded sections among `sections[from..]` were
    /// mapped at their own addresses, each with the flags that belong to it,
    /// and the number of frames taken by then.
    pub open spec fn map_sections<A: FrameAllocator>(
        self,
        sections: Seq<ElfSection>,
        from: nat,
        allocator: &A,
        used: nat,
    ) -> (MachineView, nat)
        decreases sections.len() - from,
    {
        if from >= sections.len() {
            (self, used)
        } else {
            let section = sections[from as int];
            let (next, taken) = if section.spec_is_allocated() {
                self.identity_map_range(
                    section_first_frame(section),
                    frames_between(section_first_frame(section), section_last_frame(section)),
                    section_entry_flags(section.flags),
                    allocator,
                    used,
                )
            } else {
                (self, used)
            };
            next.map_sections(sections, from + 1, allocator, taken)
        }
    }

    /// Whether the loaded sections among `sections[from..]` can be mapped one
    /// after the other.
    pub open spec fn can_map_sections<A: FrameAllocator>(
        self,
        sections: Seq<ElfSection>,
        from: nat,
        allocator: &A,
        used: nat,
    ) -> bool
        decreases sections.len() - from,
    {
        from < sections.len() ==> {
            let section = sections[from as int];
            let (next, taken) = if section.spec_is_allocated() {
                self.identity_map_range(
                    section_first_frame(section),
                    frames_between(section_first_frame(section), section_last_frame(section)),
                    section_entry_flags(section.flags),
                    allocator,
                    used,
                )
            } else {
                (self, used)
            };
            &&& section_fits(section)
            &&& section.spec_is_allocated() ==> self.can_identity_map_range(
                section_first_frame(section),
                frames_between(section_first_frame(section), section_last_frame(section)),
                section_entry_flags(section.flags),
                allocator,
                used,
            )
            &&& next.can_map_sections(sections, from + 1, allocator, taken)
        }
    }

    /// The machine after the kernel image was mapped: its loaded sections,
    /// then the frames of the boot information, present only, then the frame
    /// of the text screen, writable; and the number of frames taken by then.
    pub open spec fn map_image<A: FrameAllocator>(
        self,
        sections: Seq<ElfSection>,
        boot_info_start: u64,
        boot_info_end: u64,
        allocator: &A,
        used: nat,
    ) -> (MachineView, nat) {
        let (s1, u1) = self.map_sections(sections, 0, allocator, used);
        let (s2, u2) = s1.identity_map_range(
            boot_info_start as nat / 4096,
            frames_between(boot_info_start as nat / 4096, boot_info_end as nat / 4096),
            PRESENT,
            allocator,
            u1,
        );
        s2.map_to(VGA_FRAME as nat, VGA_FRAME as nat, WRITABLE, allocator, u2)
    }

    /// Whether the kernel image can be mapped.
    pub open spec fn can_map_image<A: FrameAllocator>(
        self,
        sections: Seq<ElfSection>,
        boot_info_start: u64,
        boot_info_end: u64,
        allocator: &A,
        used: nat,
    ) -> bool {
        let (s1, u1) = self.map_sections(sections, 0, allocator, used);
        let (s2, u2) = s1.identity_map_range(
            boot_info_start as nat / 4096,
            frames_between(boot_info_start as nat / 4096, boot_info_end as nat / 4096),
            PRESENT,
            allocator,
            u1,
        );
        &&& self.can_map_sections(sections, 0, allocator, used)
        &&& s1.can_identity_map_range(
            boot_info_start as nat / 4096,
            frames_between(boot_info_start as nat / 4096, boot_info_end as nat / 4096),
            PRESENT,
            allocator,
            u1,
        )
        &&& s2.can_map_to(VGA_FRAME as nat, VGA_FRAME as nat, allocator, u2)
    }

    /// An allocator that is `count` allocations ahead of another maps
    /// sections as the other does after `count` more.
    pub proof fn lemma_map_sections_shift<A: FrameAllocator>(
        self,
        sections: Seq<ElfSection>,
        from: nat,
        behind: &A,
        ahead: &A,
        count: nat,
        used: nat,
    )
        requires
            supply_advanced(behind, ahead, count),
        ensures
            self.can_map_sections(sections, from, ahead, used) == self.can_map_sections(
                sections,
                from,
                behind,
                used + count,
            ),
            self.map_sections(sections, from, ahead, used).0 == self.map_sections(
                sections,
                from,
                behind,
                used + count,
            ).0,
            self.map_sections(sections, from, ahead, used).1 + count == self.map_sections(
                sections,
                from,
                behind,
                used + count,
            ).1,
        decreases sections.len() - from,
    {
        if from < sections.len() {
            let section = sections[from as int];
            if section.spec_is_allocated() {
                self.lemma_identity_map_range_shift(
                    section_first_frame(section),
                    frames_between(section_first_frame(section), section_last_frame(section)),
                    section_entry_flags(section.flags),
                    behind,
                    ahead,
                    count,
                    used,
                );
                let (next, taken) = self.identity_map_range(
                    section_first_frame(section),
                    frames_between(section_first_frame(section), section_last_frame(section)),
                    section_entry_flags(section.flags),
                    ahead,
                    used,
                );
                next.lemma_map_sections_shift(sections, from + 1, behind, ahead, count, taken);
            } else {
                self.lemma_map_sections_shift(sections, from + 1, behind, ahead, count, used);
            }
        }
    }

    /// An allocator that is `count` allocations ahead of another maps the
    /// kernel image as the other does after `count` more.
    pub proof fn lemma_map_image_shift<A: FrameAllocator>(
        self,
        sections: Seq<ElfSection>,
        boot_info_start: u64,
        boot_info_end: u64,
        behind: &A,
        ahead: &A,
        count: nat,
        used: nat,
    )
        requires
            supply_advanced(behind, ahead, count),
        ensures
            self.can_map_image(sections, boot_info_start, boot_info_end, ahead, used)
                == self.can_map_image(
                sections,
                boot_info_start,
                boot_info_end,
                behind,
                used + count,
            ),
            self.map_image(sections, boot_info_start, boot_info_end, ahead, used).0
                == self.map_image(
                sections,
                boot_info_start,
                boot_info_end,
                behind,
                used + count,
            ).0,
            self.map_image(sections, boot_info_start, boot_info_end, ahead, used).1 + count
                == self.map_image(
                sections,
                boot_info_start,
                boot_info_end,
                behind,
                used + count,
            ).1,
    {
        self.lemma_map_sections_shift(sections, 0, behind, ahead, count, used);
        let (s1, u1) = self.map_sections(sections, 0, ahead, used);
        s1.lemma_identity_map_range_shift(
            boot_info_start as nat / 4096,
            frames_between(boot_info_start as nat / 4096, boot_info_end as nat / 4096),
            PRESENT,
            behind,
            ahead,
            count,
            u1,
        );
        let (s2, u2) = s1.identity_map_range(
            boot_info_start as nat / 4096,
            frames_between(boot_info_start as nat / 4096, boot_info_end as nat / 4096),
            PRESENT,
            ahead,
            u1,
        );
        s2.lemma_map_to_shift(
            VGA_FRAME as nat,
            VGA_FRAME as nat,
            WRITABLE,
            behind,
            ahead,
            count,
            u2,
        );
    }
}

impl<A: FrameAllocator> TableEdit<A> for KernelImage {
    open spec fn admits(&self, machine: MachineView, allocator: &A) -> bool {
        machine.can_map_image(
            self.sections@,
            self.boot_info_start,
            self.boot_info_end,
            allocator,
            0,
        )
    }

    open spec fn outcome(&self, machine: MachineView, allocator: &A) -> (MachineView, nat) {
        machine.map_image(self.sections@, self.boot_info_start, self.boot_info_end, allocator, 0)
    }

    /// Maps every loaded section of the kernel image at its own address,
    /// writable only if the section is and executable only if it is marked
    /// so; then the boot information, then the text screen.
    fn run(self, mapper: &mut Mapper, allocator: &mut A) -> (done: bool) {
        let ghost initial = *allocator;
        let ghost origin = mapper@;
        let ghost sections = self.sections@;
        let ghost target = mapper@.map_sections(sections, 0, &initial, 0);
        let ghost mut used: nat = 0;
        let mut index: usize = 0;
        while index < self.sections.len()
            invariant
                index <= self.sections.len(),
                sections == self.sections@,
                initial == *old(allocator),
                origin == old(mapper)@,
                origin.can_map_sections(sections, 0, &initial, 0) == mapper@.can_map_sections(
                    sections,
                    index as nat,
                    &initial,
                    used,
                ),
                mapper@.map_sections(sections, index as nat, &initial, used) == target,
                target == origin.map_sections(sections, 0, &initial, 0),
                supply_advanced(&initial, allocator, used),
            decreases self.sections.len() - index,
        {
            let section = &self.sections[index];
            if section.is_allocated() {
                if section.addr % 4096 != 0 || section.size > u64::MAX - section.addr
                    || section.addr + section.size < 1 {
                    return false;
                }
                let flags = PageEntryFlags::from_elf_section_flags(section);
                let start_frame = Frame::containing_address(section.addr);
                let end_frame = Frame::containing_address(section.addr + section.size - 1);
                proof {
                    mapper@.lemma_identity_map_range_shift(
                        section_first_frame(*section),
                        frames_between(
                            section_first_frame(*section),
                            section_last_frame(*section),
                        ),
                        section_entry_flags(section.flags),
                        &initial,
                        allocator,
                        used,
                        0,
                    );
                    used = mapper@.identity_map_range(
                        section_first_frame(*section),
                        frames_between(
                            section_first_frame(*section),
                            section_last_frame(*section),
                        ),
                        section_entry_flags(section.flags),
                        &initial,
                        used,
                    ).1;
                }
                if !mapper.try_identity_map_range(
                    Frame::range_inclusive(start_frame, end_frame),
                    flags,
                    allocator,
                ) {
                    return false;
                }
            }
            index = index + 1;
        }
        let ghost first = self.boot_info_start as nat / 4096;
        let ghost count = frames_between(first, self.boot_info_end as nat / 4096);
        proof {
            crate::memory::paging::entry::lemma_flag_bits();
            mapper@.lemma_identity_map_range_shift(
                first,
                count,
                PRESENT,
                &initial,
                allocator,
                used,
                0,
            );
        }
        let ghost after_sections = mapper@;
        if !mapper.try_identity_map_range(
            Frame::range_inclusive(
                Frame::containing_address(self.boot_info_start),
                Frame::containing_address(self.boot_info_end),
            ),
            PageEntryFlags::from_bits_truncate(PRESENT),
            allocator,
        ) {
            return false;
        }
        proof {
            used = after_sections.identity_map_range(first, count, PRESENT, &initial, used).1;
            mapper@.lemma_map_to_shift(
                VGA_FRAME as nat,
                VGA_FRAME as nat,
                WRITABLE,
                &initial,
                allocator,
                used,
                0,
            );
        }
        mapper.try_identity_map(
            Frame::containing_address(0xb8000),
            PageEntryFlags::from_bits_truncate(WRITABLE),
            allocator,
        )
    }
}

/// The frames of a section as a run: the first frame and the number of
/// frames, which is zero for a section that is not loaded.
pub open spec fn section_range(section: ElfSection) -> (nat, nat) {
    if section.spec_is_allocated() {
        (
            section_first_frame(section),
            frames_between(section_first_frame(section), section_last_frame(section)),
        )
    } else {
        (0, 0)
    }
}

/// Whether two runs share no frame.
pub open spec fn apart(a: (nat, nat), b: (nat, nat)) -> bool {
    a.0 + a.1 <= b.0 || b.0 + b.1 <= a.0
}

/// Whether `page` lies in the run.
pub open spec fn in_run(run: (nat, nat), page: nat) -> bool {
    run.0 <= page < run.0 + run.1
}

/// Number of frames of the sections from index `from` on.
pub open spec fn section_frames(sections: Seq<ElfSection>, from: nat) -> nat
    decreases sections.len() - from,
{
    if from >= sections.len() {
        0
    } else {
        section_range(sections[from as int]).1 + section_frames(sections, from + 1)
    }
}

/// Whether `page` lies in one of the sections from index `from` on.
pub open spec fn in_sections(sections: Seq<ElfSection>, from: nat, page: nat) -> bool {
    exists|j: int| from <= j < sections.len() && in_run(section_range(#[trigger] sections[j]), page)
}

/// Whether no two of the sections from index `from` on share a frame.
pub open spec fn sections_apart(sections: Seq<ElfSection>, from: nat) -> bool {
    forall|j: int, k: int|
        from <= j < k < sections.len() ==> apart(
            section_range(#[trigger] sections[j]),
            section_range(#[trigger] sections[k]),
        )
}

/// Whether the run shares no frame with the sections from index `from` on.
pub open spec fn apart_from_sections(sections: Seq<ElfSection>, from: nat, run: (nat, nat)) -> bool {
    forall|j: int|
        from <= j < sections.len() ==> apart(section_range(#[trigger] sections[j]), run)
}

/// The flags that belong to a section are entry flags.
pub proof fn lemma_section_entry_flags(flags: u64)
    ensures
        section_entry_flags(flags) & !ALL_FLAGS == 0,
{
    let bits = section_entry_flags(flags);
    assert(bits & !0x8000_0000_0000_01ffu64 == 0) by (bit_vector)
        requires
            bits == 0 || bits == 1 || bits == 2 || bits == 3 || bits == 0x8000_0000_0000_0000
                || bits == 0x8000_0000_0000_0001 || bits == 0x8000_0000_0000_0002 || bits
                == 0x8000_0000_0000_0003,
    ;
}

impl MachineView {
    /// Whether each section from index `from` on fits and can be mapped at
    /// its own address.
    pub open spec fn sections_mappable(self, sections: Seq<ElfSection>, from: nat) -> bool {
        forall|j: int|
            from <= j < sections.len() ==> section_fits(#[trigger] sections[j])
                && self.is_identity_range(
                section_range(sections[j]).0,
                section_range(sections[j]).1,
            )
    }

    /// Whether each section from index `from` on is mapped at its own
    /// address, by entries with the flags that belong to the section.
    pub open spec fn maps_sections(self, sections: Seq<ElfSection>, from: nat) -> bool {
        forall|j: int|
            from <= j < sections.len() ==> self.maps_identity(
                section_range(#[trigger] sections[j]).0,
                section_range(sections[j]).1,
            ) && self.maps_range_with(
                section_range(sections[j]).0,
                section_range(sections[j]).1,
                section_entry_flags(sections[j].flags),
            )
    }

    /// Whether `after` has the root, the loaded table and the invalidations
    /// of this machine and differs from it at most in the pages of the
    /// sections from index `from` on.
    #[verifier::opaque]
    pub open spec fn agrees_outside_sections(
        self,
        after: MachineView,
        sections: Seq<ElfSection>,
        from: nat,
    ) -> bool {
        &&& after.root() == self.root()
        &&& after.table_base == self.table_base
        &&& after.flushes == self.flushes
        &&& forall|other: nat|
            is_page_number(other) && p4_index_of(other) != 511 && !in_sections(
                sections,
                from,
                other,
            ) ==> #[trigger] after.mapping(other) == self.mapping(other)
        &&& forall|other: nat|
            is_page_number(other) && p4_index_of(other) != 511 && !in_sections(
                sections,
                from,
                other,
            ) && #[trigger] self.is_vacant(other) ==> after.is_vacant(other)
        &&& forall|other: nat|
            is_page_number(other) && p4_index_of(other) != 511 && !in_sections(
                sections,
                from,
                other,
            ) && #[trigger] self.is_leaf_mapped(other) ==> self.keeps_leaf(after, other)
    }

    /// A run that can be mapped can be mapped after another run, which
    /// shares no frame with it, was.
    pub proof fn lemma_identity_range_kept(
        self,
        after: MachineView,
        run: (nat, nat),
        mapped: (nat, nat),
    )
        requires
            self.is_identity_range(run.0, run.1),
            self.agrees_outside(after, mapped.0, mapped.1),
            apart(mapped, run),
        ensures
            after.is_identity_range(run.0, run.1),
    {
        reveal(MachineView::is_identity_range);
        reveal(MachineView::agrees_outside);
        assert forall|page: nat| run.0 <= page < run.0 + run.1 implies (
        #[trigger] after.is_identity_page(page)) by {
            assert(self.is_identity_page(page));
        }
    }

    /// A run that is mapped stays so when another run, which shares no
    /// frame with it, is mapped.
    pub proof fn lemma_maps_identity_kept(
        self,
        after: MachineView,
        run: (nat, nat),
        mapped: (nat, nat),
    )
        requires
            self.maps_identity(run.0, run.1),
            is_run_of_pages(run),
            self.agrees_outside(after, mapped.0, mapped.1),
            apart(mapped, run),
        ensures
            after.maps_identity(run.0, run.1),
    {
        reveal(MachineView::maps_identity);
        reveal(MachineView::agrees_outside);
        assert forall|page: nat| run.0 <= page < run.0 + run.1 implies (
        #[trigger] after.is_identity_mapped(page)) by {
            assert(self.is_identity_mapped(page));
            assert(is_plain_page(page));
            assert(after.mapping(page) == self.mapping(page));
            assert(after.is_leaf_mapped(page));
        }
    }

    /// The entries of a run keep their flags when another run, which
    /// shares no frame with it, is mapped.
    pub proof fn lemma_flags_kept(
        self,
        after: MachineView,
        run: (nat, nat),
        mapped: (nat, nat),
        flags: u64,
    )
        requires
            self.maps_range_with(run.0, run.1, flags),
            is_run_of_pages(run),
            self.agrees_outside(after, mapped.0, mapped.1),
            apart(mapped, run),
        ensures
            after.maps_range_with(run.0, run.1, flags),
    {
        reveal(MachineView::maps_range_with);
        reveal(MachineView::agrees_outside);
        assert forall|page: nat|
            run.0 <= page < run.0 + run.1 implies #[trigger] after.is_mapped_with(page, flags) by {
            assert(self.is_mapped_with(page, flags));
            assert(is_plain_page(page));
            assert(self.is_leaf_mapped(page));
            assert(self.keeps_leaf(after, page));
        }
    }

    /// The pages of a run that can be mapped are pages outside the
    /// recursive mapping.
    pub proof fn lemma_identity_range_numbers(self, run: (nat, nat))
        requires
            self.is_identity_range(run.0, run.1),
        ensures
            is_run_of_pages(run),
    {
        reveal(MachineView::is_identity_range);
        assert forall|page: nat| run.0 <= page < run.0 + run.1 implies #[trigger] is_plain_page(
            page,
        ) by {
            assert(self.is_identity_page(page));
        }
    }
}

/// Whether `page` is a page at a canonical address outside the recursive
/// mapping.
pub open spec fn is_plain_page(page: nat) -> bool {
    is_page_number(page) && p4_index_of(page) != 511
}

/// Whether the pages of the run are pages outside the recursive mapping.
pub open spec fn is_run_of_pages(run: (nat, nat)) -> bool {
    forall|page: nat| run.0 <= page < run.0 + run.1 ==> #[trigger] is_plain_page(page)
}

impl MachineView {
    /// A run that is mapped stays so when sections are mapped that share no
    /// frame with it.
    pub proof fn lemma_maps_identity_beside_sections(
        self,
        after: MachineView,
        sections: Seq<ElfSection>,
        from: nat,
        run: (nat, nat),
    )
        requires
            self.maps_identity(run.0, run.1),
            is_run_of_pages(run),
            self.agrees_outside_sections(after, sections, from),
            apart_from_sections(sections, from, run),
        ensures
            after.maps_identity(run.0, run.1),
    {
        reveal(MachineView::maps_identity);
        reveal(MachineView::agrees_outside_sections);
        assert forall|page: nat| run.0 <= page < run.0 + run.1 implies (
        #[trigger] after.is_identity_mapped(page)) by {
            assert(self.is_identity_mapped(page));
            assert(is_plain_page(page));
            assert(!in_sections(sections, from, page)) by {
                if in_sections(sections, from, page) {
                    let j = choose|j: int|
                        from <= j < sections.len() && in_run(
                            section_range(#[trigger] sections[j]),
                            page,
                        );
                    assert(apart(section_range(sections[j]), run));
                }
            }
            assert(after.mapping(page) == self.mapping(page));
            assert(after.is_leaf_mapped(page));
        }
    }

    /// The entries of a run keep their flags when sections are mapped that
    /// share no frame with it.
    pub proof fn lemma_flags_beside_sections(
        self,
        after: MachineView,
        sections: Seq<ElfSection>,
        from: nat,
        run: (nat, nat),
        flags: u64,
    )
        requires
            self.maps_range_with(run.0, run.1, flags),
            is_run_of_pages(run),
            self.agrees_outside_sections(after, sections, from),
            apart_from_sections(sections, from, run),
        ensures
            after.maps_range_with(run.0, run.1, flags),
    {
        reveal(MachineView::maps_range_with);
        reveal(MachineView::agrees_outside_sections);
        assert forall|page: nat|
            run.0 <= page < run.0 + run.1 implies #[trigger] after.is_mapped_with(page, flags) by {
            assert(self.is_mapped_with(page, flags));
            assert(is_plain_page(page));
            assert(!in_sections(sections, from, page)) by {
                if in_sections(sections, from, page) {
                    let j = choose|j: int|
                        from <= j < sections.len() && in_run(
                            section_range(#[trigger] sections[j]),
                            page,
                        );
                    assert(apart(section_range(sections[j]), run));
                }
            }
            assert(self.is_leaf_mapped(page));
            assert(self.keeps_leaf(after, page));
        }
    }

    /// A run that can be mapped can be mapped after sections were mapped
    /// that share no frame with it.
    pub proof fn lemma_identity_range_beside_sections(
        self,
        after: MachineView,
        sections: Seq<ElfSection>,
        from: nat,
        run: (nat, nat),
    )
        requires
            self.is_identity_range(run.0, run.1),
            self.agrees_outside_sections(after, sections, from),
            apart_from_sections(sections, from, run),
        ensures
            after.is_identity_range(run.0, run.1),
    {
        reveal(MachineView::is_identity_range);
        reveal(MachineView::agrees_outside_sections);
        assert forall|page: nat| run.0 <= page < run.0 + run.1 implies (
        #[trigger] after.is_identity_page(page)) by {
            assert(self.is_identity_page(page));
            assert(!in_sections(sections, from, page)) by {
                if in_sections(sections, from, page) {
                    let j = choose|j: int|
                        from <= j < sections.len() && in_run(
                            section_range(#[trigger] sections[j]),
                            page,
                        );
                    assert(apart(section_range(sections[j]), run));
                }
            }
        }
    }

    /// Mapping one section and then the ones behind it leaves the pages
    /// outside all of them alone.
    proof fn lemma_sections_step(
        self,
        next: MachineView,
        after: MachineView,
        sections: Seq<ElfSection>,
        from: nat,
    )
        requires
            from < sections.len(),
            self.agrees_outside(
                next,
                section_range(sections[from as int]).0,
                section_range(sections[from as int]).1,
            ),
            next.agrees_outside_sections(after, sections, from + 1),
        ensures
            self.agrees_outside_sections(after, sections, from),
    {
        reveal(MachineView::agrees_outside);
        reveal(MachineView::agrees_outside_sections);
        let run = section_range(sections[from as int]);
        assert forall|other: nat|
            is_page_number(other) && p4_index_of(other) != 511 && !in_sections(
                sections,
                from,
                other,
            ) implies !in_run(run, other) && !in_sections(sections, from + 1, other) by {
            if in_sections(sections, from + 1, other) {
                let j = choose|j: int|
                    from + 1 <= j < sections.len() && in_run(
                        section_range(#[trigger] sections[j]),
                        other,
                    );
                assert(in_run(section_range(sections[j]), other));
            }
            if in_run(run, other) {
                assert(in_run(section_range(sections[from as int]), other));
            }
        }
        assert forall|other: nat|
            is_page_number(other) && p4_index_of(other) != 511 && !in_sections(
                sections,
                from,
                other,
            ) implies #[trigger] after.mapping(other) == self.mapping(other) by {
            assert(next.mapping(other) == self.mapping(other));
        }
        assert forall|other: nat|
            is_page_number(other) && p4_index_of(other) != 511 && !in_sections(
                sections,
                from,
                other,
            ) && #[trigger] self.is_vacant(other) implies after.is_vacant(other) by {
            assert(next.is_vacant(other));
        }
        assert forall|other: nat|
            is_page_number(other) && p4_index_of(other) != 511 && !in_sections(
                sections,
                from,
                other,
            ) && #[trigger] self.is_leaf_mapped(other) implies self.keeps_leaf(after, other) by {
            assert(next.is_leaf_mapped(other));
        }
    }

    /// In a tree, sections that fit, share no frame and can each be mapped
    /// at its own address can be mapped one after the other with a fresh
    /// supply of three frames for each of their frames. That leaves a tree
    /// in which every section is mapped at its own address and every page
    /// outside them translates as before.
    pub proof fn lemma_map_sections_in_tree<A: FrameAllocator>(
        self,
        sections: Seq<ElfSection>,
        from: nat,
        allocator: &A,
        used: nat,
        count: nat,
    )
        requires
            self.is_tree(),
            self.sections_mappable(sections, from),
            sections_apart(sections, from),
            self.has_fresh_frames(allocator, used, count),
            count >= 3 * section_frames(sections, from),
        ensures
            self.can_map_sections(sections, from, allocator, used),
            ({
                let (after, taken) = self.map_sections(sections, from, allocator, used);
                &&& after.is_tree()
                &&& used <= taken <= used + 3 * section_frames(sections, from)
                &&& after.maps_sections(sections, from)
                &&& self.agrees_outside_sections(after, sections, from)
                &&& after.has_fresh_frames(allocator, taken, (count - (taken - used)) as nat)
                &&& self.confined_to(after, allocator, used, taken)
            }),
        decreases sections.len() - from,
    {
        if from < sections.len() {
            let section = sections[from as int];
            let run = section_range(section);
            assert(section_fits(section) && self.is_identity_range(run.0, run.1));
            lemma_section_entry_flags(section.flags);
            let (next, taken) = if section.spec_is_allocated() {
                self.identity_map_range(
                    run.0,
                    run.1,
                    section_entry_flags(section.flags),
                    allocator,
                    used,
                )
            } else {
                (self, used)
            };
            if section.spec_is_allocated() {
                self.lemma_identity_map_range_in_tree(
                    run.0,
                    run.1,
                    section_entry_flags(section.flags),
                    allocator,
                    used,
                    count,
                );
            } else {
                self.lemma_fewer_fresh_frames(allocator, used, count, used, count);
                assert(self.agrees_outside(self, 0, 0)) by {
                    reveal(MachineView::agrees_outside);
                }
                assert(self.maps_identity(0, 0)) by {
                    reveal(MachineView::maps_identity);
                }
                assert(self.maps_range_with(0, 0, section_entry_flags(section.flags))) by {
                    reveal(MachineView::maps_range_with);
                }
                assert(self.confined_to(self, allocator, used, used)) by {
                    reveal(MachineView::confined_to);
                }
            }
            let left = (count - (taken - used)) as nat;
            assert(next.sections_mappable(sections, from + 1)) by {
                assert forall|k: int| from + 1 <= k < sections.len() implies section_fits(
                    #[trigger] sections[k],
                ) && next.is_identity_range(
                    section_range(sections[k]).0,
                    section_range(sections[k]).1,
                ) by {
                    assert(apart(section_range(sections[from as int]), section_range(sections[k])));
                    self.lemma_identity_range_kept(next, section_range(sections[k]), run);
                }
            }
            next.lemma_map_sections_in_tree(sections, from + 1, allocator, taken, left);
            let (after, last) = next.map_sections(sections, from + 1, allocator, taken);
            self.lemma_sections_step(next, after, sections, from);
            self.lemma_confined_twice(next, after, allocator, used, taken, last);
            self.lemma_identity_range_numbers(run);
            assert(apart_from_sections(sections, from + 1, run)) by {
                assert forall|k: int| from + 1 <= k < sections.len() implies apart(
                    section_range(#[trigger] sections[k]),
                    run,
                ) by {
                    assert(apart(section_range(sections[from as int]), section_range(sections[k])));
                }
            }
            next.lemma_maps_identity_beside_sections(after, sections, from + 1, run);
            next.lemma_flags_beside_sections(
                after,
                sections,
                from + 1,
                run,
                section_entry_flags(section.flags),
            );
        } else {
            self.lemma_fewer_fresh_frames(allocator, used, count, used, count);
            assert(self.agrees_outside_sections(self, sections, from)) by {
                reveal(MachineView::agrees_outside_sections);
            }
            assert(self.confined_to(self, allocator, used, used)) by {
                reveal(MachineView::confined_to);
            }
        }
    }
}

/// The frames of the boot information as a run.
pub open spec fn boot_info_range(boot_info_start: u64, boot_info_end: u64) -> (nat, nat) {
    (
        boot_info_start as nat / 4096,
        frames_between(boot_info_start as nat / 4096, boot_info_end as nat / 4096),
    )
}

/// Whether `page` belongs to the kernel image: to a loaded section, to the
/// boot information, or to the text screen.
pub open spec fn in_image(
    sections: Seq<ElfSection>,
    boot_info_start: u64,
    boot_info_end: u64,
    page: nat,
) -> bool {
    ||| in_sections(sections, 0, page)
    ||| in_run(boot_info_range(boot_info_start, boot_info_end), page)
    ||| page == VGA_FRAME
}

/// Number of frames of the kernel image.
pub open spec fn image_frames(
    sections: Seq<ElfSection>,
    boot_info_start: u64,
    boot_info_end: u64,
) -> nat {
    section_frames(sections, 0) + boot_info_range(boot_info_start, boot_info_end).1 + 1
}

/// Whether the parts of the kernel image share no frame.
pub open spec fn image_apart(
    sections: Seq<ElfSection>,
    boot_info_start: u64,
    boot_info_end: u64,
) -> bool {
    &&& sections_apart(sections, 0)
    &&& apart_from_sections(sections, 0, boot_info_range(boot_info_start, boot_info_end))
    &&& apart_from_sections(sections, 0, (VGA_FRAME as nat, 1))
    &&& apart(boot_info_range(boot_info_start, boot_info_end), (VGA_FRAME as nat, 1))
}

impl MachineView {
    /// Whether every part of the kernel image can be mapped at its own
    /// address.
    pub open spec fn image_mappable(
        self,
        sections: Seq<ElfSection>,
        boot_info_start: u64,
        boot_info_end: u64,
    ) -> bool {
        &&& self.sections_mappable(sections, 0)
        &&& self.is_identity_range(
            boot_info_range(boot_info_start, boot_info_end).0,
            boot_info_range(boot_info_start, boot_info_end).1,
        )
        &&& self.is_identity_range(VGA_FRAME as nat, 1)
    }

    /// Whether `page` carries the flags of each part of the kernel image
    /// that it belongs to: those of the section, the present flag alone for
    /// the boot information, the writable flag for the text screen.
    pub open spec fn has_image_flags(
        self,
        sections: Seq<ElfSection>,
        boot_info_start: u64,
        boot_info_end: u64,
        page: nat,
    ) -> bool {
        &&& forall|j: int|
            0 <= j < sections.len() && in_run(section_range(#[trigger] sections[j]), page)
                ==> self.is_mapped_with(page, section_entry_flags(sections[j].flags))
        &&& in_run(boot_info_range(boot_info_start, boot_info_end), page) ==> self.is_mapped_with(
            page,
            PRESENT,
        )
        &&& page == VGA_FRAME ==> self.is_mapped_with(page, WRITABLE)
    }

    /// A page that keeps its entry keeps the flags that the image gives it.
    pub proof fn lemma_image_flags_kept(
        self,
        after: MachineView,
        sections: Seq<ElfSection>,
        boot_info_start: u64,
        boot_info_end: u64,
        page: nat,
    )
        requires
            self.has_image_flags(sections, boot_info_start, boot_info_end, page),
            self.is_leaf_mapped(page) ==> self.keeps_leaf(after, page),
        ensures
            after.has_image_flags(sections, boot_info_start, boot_info_end, page),
    {
    }

    /// Where the kernel image is mapped, each of its pages carries the flags
    /// of its part.
    pub proof fn lemma_image_page_flags(
        self,
        sections: Seq<ElfSection>,
        boot_info_start: u64,
        boot_info_end: u64,
        page: nat,
    )
        requires
            self.maps_image(sections, boot_info_start, boot_info_end),
        ensures
            self.has_image_flags(sections, boot_info_start, boot_info_end, page),
    {
        reveal(MachineView::maps_range_with);
        assert forall|j: int|
            0 <= j < sections.len() && in_run(
                section_range(#[trigger] sections[j]),
                page,
            ) implies self.is_mapped_with(page, section_entry_flags(sections[j].flags)) by {
            assert(self.maps_range_with(
                section_range(sections[j]).0,
                section_range(sections[j]).1,
                section_entry_flags(sections[j].flags),
            ));
        }
    }

    /// Whether every part of the kernel image is mapped at its own address,
    /// by entries with the flags of the part.
    pub open spec fn maps_image(
        self,
        sections: Seq<ElfSection>,
        boot_info_start: u64,
        boot_info_end: u64,
    ) -> bool {
        &&& self.maps_sections(sections, 0)
        &&& self.maps_identity(
            boot_info_range(boot_info_start, boot_info_end).0,
            boot_info_range(boot_info_start, boot_info_end).1,
        )
        &&& self.maps_range_with(
            boot_info_range(boot_info_start, boot_info_end).0,
            boot_info_range(boot_info_start, boot_info_end).1,
            PRESENT,
        )
        &&& self.maps_identity(VGA_FRAME as nat, 1)
        &&& self.maps_range_with(VGA_FRAME as nat, 1, WRITABLE)
    }

    /// Whether `after` has the root, the loaded table and the invalidations
    /// of this machine and differs from it at most in the pages of the
    /// kernel image.
    #[verifier::opaque]
    pub open spec fn agrees_outside_image(
        self,
        after: MachineView,
        sections: Seq<ElfSection>,
        boot_info_start: u64,
        boot_info_end: u64,
    ) -> bool {
        &&& after.root() == self.root()
        &&& after.table_base == self.table_base
        &&& after.flushes == self.flushes
        &&& forall|other: nat|
            is_page_number(other) && p4_index_of(other) != 511 && !in_image(
                sections,
                boot_info_start,
                boot_info_end,
                other,
            ) ==> #[trigger] after.mapping(other) == self.mapping(other)
        &&& forall|other: nat|
            is_page_number(other) && p4_index_of(other) != 511 && !in_image(
                sections,
                boot_info_start,
                boot_info_end,
                other,
            ) && #[trigger] self.is_vacant(other) ==> after.is_vacant(other)
    }

    /// Mapping the sections, then the boot information, then the text
    /// screen leaves the pages outside the kernel image alone.
    proof fn lemma_image_steps(
        self,
        s1: MachineView,
        s2: MachineView,
        after: MachineView,
        sections: Seq<ElfSection>,
        boot_info_start: u64,
        boot_info_end: u64,
    )
        requires
            self.agrees_outside_sections(s1, sections, 0),
            s1.agrees_outside(
                s2,
                boot_info_range(boot_info_start, boot_info_end).0,
                boot_info_range(boot_info_start, boot_info_end).1,
            ),
            s2.agrees_outside(after, VGA_FRAME as nat, 1),
        ensures
            self.agrees_outside_image(after, sections, boot_info_start, boot_info_end),
    {
        reveal(MachineView::agrees_outside);
        reveal(MachineView::agrees_outside_sections);
        reveal(MachineView::agrees_outside_image);
        assert forall|other: nat|
            is_page_number(other) && p4_index_of(other) != 511 && !in_image(
                sections,
                boot_info_start,
                boot_info_end,
                other,
            ) implies #[trigger] after.mapping(other) == self.mapping(other) by {
            assert(s1.mapping(other) == self.mapping(other));
            assert(s2.mapping(other) == s1.mapping(other));
        }
        assert forall|other: nat|
            is_page_number(other) && p4_index_of(other) != 511 && !in_image(
                sections,
                boot_info_start,
                boot_info_end,
                other,
            ) && #[trigger] self.is_vacant(other) implies after.is_vacant(other) by {
            assert(s1.is_vacant(other));
            assert(s2.is_vacant(other));
        }
    }

    /// In a tree, a kernel image whose parts share no frame and can each be
    /// mapped at its own address can be mapped with a fresh supply of three
    /// frames for each of its frames. That leaves a tree in which every part
    /// of the image is mapped at its own address and every page outside the
    /// image translates as before.
    pub proof fn lemma_map_image_in_tree<A: FrameAllocator>(
        self,
        sections: Seq<ElfSection>,
        boot_info_start: u64,
        boot_info_end: u64,
        allocator: &A,
        used: nat,
        count: nat,
    )
        requires
            self.is_tree(),
            self.image_mappable(sections, boot_info_start, boot_info_end),
            image_apart(sections, boot_info_start, boot_info_end),
            self.has_fresh_frames(allocator, used, count),
            count >= 3 * image_frames(sections, boot_info_start, boot_info_end),
        ensures
            self.can_map_image(sections, boot_info_start, boot_info_end, allocator, used),
            ({
                let (after, taken) = self.map_image(
                    sections,
                    boot_info_start,
                    boot_info_end,
                    allocator,
                    used,
                );
                &&& after.is_tree()
                &&& used <= taken <= used + 3 * image_frames(
                    sections,
                    boot_info_start,
                    boot_info_end,
                )
                &&& after.maps_image(sections, boot_info_start, boot_info_end)
                &&& self.agrees_outside_image(after, sections, boot_info_start, boot_info_end)
                &&& after.has_fresh_frames(allocator, taken, (count - (taken - used)) as nat)
                &&& self.confined_to(after, allocator, used, taken)
            }),
    {
        let boot = boot_info_range(boot_info_start, boot_info_end);
        let screen = (VGA_FRAME as nat, 1 as nat);
        crate::memory::paging::entry::lemma_flag_bits();
        // The sections.
        self.lemma_map_sections_in_tree(sections, 0, allocator, used, count);
        let (s1, u1) = self.map_sections(sections, 0, allocator, used);
        let c1 = (count - (u1 - used)) as nat;
        self.lemma_identity_range_beside_sections(s1, sections, 0, boot);
        self.lemma_identity_range_beside_sections(s1, sections, 0, screen);
        // The boot information.
        s1.lemma_identity_map_range_in_tree(boot.0, boot.1, PRESENT, allocator, u1, c1);
        let (s2, u2) = s1.identity_map_range(boot.0, boot.1, PRESENT, allocator, u1);
        let c2 = (c1 - (u2 - u1)) as nat;
        s1.lemma_identity_range_kept(s2, screen, boot);
        // The text screen.
        assert(s2.is_identity_page(VGA_FRAME as nat)) by {
            reveal(MachineView::is_identity_range);
        }
        s2.lemma_map_to_in_tree(
            VGA_FRAME as nat,
            VGA_FRAME as nat,
            WRITABLE,
            allocator,
            u2,
            c2,
        );
        let (after, taken) = s2.map_to(
            VGA_FRAME as nat,
            VGA_FRAME as nat,
            WRITABLE,
            allocator,
            u2,
        );
        assert(s2.agrees_outside(after, VGA_FRAME as nat, 1)) by {
            reveal(MachineView::agrees_outside);
        }
        assert(after.maps_identity(VGA_FRAME as nat, 1)) by {
            reveal(MachineView::maps_identity);
        }
        assert(after.maps_range_with(VGA_FRAME as nat, 1, WRITABLE)) by {
            reveal(MachineView::maps_range_with);
        }
        self.lemma_identity_range_numbers(boot);
        s2.lemma_maps_identity_kept(after, boot, screen);
        s2.lemma_flags_kept(after, boot, screen, PRESENT);
        assert(after.maps_sections(sections, 0)) by {
            assert forall|j: int| 0 <= j < sections.len() implies after.maps_identity(
                section_range(#[trigger] sections[j]).0,
                section_range(sections[j]).1,
            ) && after.maps_range_with(
                section_range(sections[j]).0,
                section_range(sections[j]).1,
                section_entry_flags(sections[j].flags),
            ) by {
                let run = section_range(sections[j]);
                let flags = section_entry_flags(sections[j].flags);
                self.lemma_identity_range_numbers(run);
                assert(apart(run, boot));
                assert(apart(run, screen));
                s1.lemma_maps_identity_kept(s2, run, boot);
                s2.lemma_maps_identity_kept(after, run, screen);
                s1.lemma_flags_kept(s2, run, boot, flags);
                s2.lemma_flags_kept(after, run, screen, flags);
            }
        }
        self.lemma_image_steps(s1, s2, after, sections, boot_info_start, boot_info_end);
        self.lemma_confined_twice(s1, s2, allocator, used, u1, u2);
        self.lemma_confined_twice(s2, after, allocator, used, u2, taken);
    }
}

} // verus!
