//! A page table as software reaches it: through a virtual address that the
//! recursive mapping resolves to the table's frame.

use vstd::prelude::*;
use core::marker::PhantomData;
use crate::memory::{Frame, FrameAllocator};
use crate::memory::paging::entry::{
    make_word, word_huge, PageEntry, PageEntryFlags, ENTRY_FRAME_LIMIT, HUGE_PAGE, PRESENT,
    WRITABLE,
};
use crate::memory::paging::machine::{Machine, MachineView};
use crate::memory::paging::{p1_index_of, p2_index_of, p3_index_of, p4_index_of};

verus! {

/// Virtual address of the level-4 table: all four indices are 511, so the
/// walk goes through the recursive entry four times.
pub const P4_ADDRESS: u64 = 0xffff_ffff_ffff_f000;

/// A level of the table hierarchy.
pub trait TableLevel {
    /// 4 for the top level down to 1 for the tables that map pages.
    spec fn depth() -> nat;
}

/// A level whose entries lead to tables of the next level.
pub trait HeirarchialLevel: TableLevel {
    /// The level below.
    type NextLevel: TableLevel;

    /// Such a level is not the lowest, and the next one is one deeper.
    proof fn lemma_descends()
        ensures
            2 <= Self::depth() <= 4,
            <Self::NextLevel as TableLevel>::depth() + 1 == Self::depth(),
    ;
}

/// The top level.
pub struct Level4;

/// The level below the top.
pub struct Level3;

/// The level above the lowest.
pub struct Level2;

/// The lowest level: its entries map pages.
pub struct Level1;

impl TableLevel for Level4 {
    open spec fn depth() -> nat {
        4
    }
}

impl TableLevel for Level3 {
    open spec fn depth() -> nat {
        3
    }
}

impl TableLevel for Level2 {
    open spec fn depth() -> nat {
        2
    }
}

impl TableLevel for Level1 {
    open spec fn depth() -> nat {
        1
    }
}

impl HeirarchialLevel for Level4 {
    type NextLevel = Level3;

    proof fn lemma_descends() {
    }
}

impl HeirarchialLevel for Level3 {
    type NextLevel = Level2;

    proof fn lemma_descends() {
    }
}

impl HeirarchialLevel for Level2 {
    type NextLevel = Level1;

    proof fn lemma_descends() {
    }
}

/// Address of the table that entry `index` of the table at `address` leads
/// to: the address moves up by one level and the index fills the gap.
pub open spec fn child_address(address: u64, index: nat) -> u64 {
    (address << 9) | ((index as u64) << 12)
}

/// Whether `address` can be the address of a table `depth` levels above the
/// pages: it is page-aligned, and a table above the lowest level is reached
/// through the recursive entry at least twice, once more for each level.
pub open spec fn is_table_address(address: u64, depth: nat) -> bool {
    let page = address as nat / 4096;
    &&& address % 4096 == 0
    &&& depth >= 2 ==> p4_index_of(page) == 511 && p3_index_of(page) == 511
    &&& depth >= 3 ==> p2_index_of(page) == 511
    &&& depth >= 4 ==> p1_index_of(page) == 511
}

/// The indices of a child's address are those of its parent, moved up by one
/// level, with the entry's index as the last.
pub proof fn lemma_child_address(address: u64, index: u64)
    requires
        address % 4096 == 0,
        index < 512,
    ensures
        child_address(address, index as nat) % 4096 == 0,
        p4_index_of(child_address(address, index as nat) as nat / 4096) == p3_index_of(
            address as nat / 4096,
        ),
        p3_index_of(child_address(address, index as nat) as nat / 4096) == p2_index_of(
            address as nat / 4096,
        ),
        p2_index_of(child_address(address, index as nat) as nat / 4096) == p1_index_of(
            address as nat / 4096,
        ),
        p1_index_of(child_address(address, index as nat) as nat / 4096) == index,
{
    let child: u64 = (address << 9) | (index << 12);
    assert(child % 4096 == 0 && ((child / 4096) / 0x800_0000) % 512 == ((address / 4096)
        / 0x4_0000) % 512 && ((child / 4096) / 0x4_0000) % 512 == ((address / 4096) / 512) % 512
        && ((child / 4096) / 512) % 512 == (address / 4096) % 512 && (child / 4096) % 512 == index)
        by (bit_vector)
        requires
            address % 4096 == 0,
            index < 512,
            child == (address << 9) | (index << 12),
    ;
}

/// The address of the level-4 table is one.
pub proof fn lemma_p4_address()
    ensures
        is_table_address(P4_ADDRESS, 4),
{
}

impl MachineView {
    /// Whether `frame` is the loaded level-4 table or one of the tables that
    /// the processor passes on its way to the table at `address`, that table
    /// included.
    pub open spec fn on_table_path(self, address: u64, frame: nat) -> bool {
        let page = address as nat / 4096;
        let p3 = self.next_table(self.table_base, p4_index_of(page));
        let p2 = if p3.is_some() {
            self.next_table(p3.unwrap(), p3_index_of(page))
        } else {
            None
        };
        let p1 = if p2.is_some() {
            self.next_table(p2.unwrap(), p2_index_of(page))
        } else {
            None
        };
        let leaf = if p1.is_some() {
            self.next_table(p1.unwrap(), p1_index_of(page))
        } else {
            None
        };
        frame == self.table_base || p3 == Some(frame) || p2 == Some(frame) || p1 == Some(frame)
            || leaf == Some(frame)
    }

    /// The machine after entry `index` of table `table` was pointed to the
    /// new table `fresh`, present and writable, and `fresh` was cleared.
    pub open spec fn with_new_table(self, table: nat, index: nat, fresh: nat) -> MachineView {
        self.set_entry(table, index, make_word(fresh, PRESENT | WRITABLE)).zero_table(fresh)
    }

    /// A write to an entry that leads to no table leaves every table where
    /// it was, and the recursive mapping in place.
    pub proof fn lemma_set_entry_keeps_tables(self, table: nat, index: nat, word: u64)
        requires
            index < 512,
            self.next_table(table, index).is_none(),
        ensures
            forall|frame: nat, i: nat|
                i < 512 && #[trigger] self.next_table(frame, i).is_some() ==> self.set_entry(
                    table,
                    index,
                    word,
                ).next_table(frame, i) == self.next_table(frame, i),
            forall|address: u64| #[trigger]
                self.table_frame(address).is_some() ==> self.set_entry(
                    table,
                    index,
                    word,
                ).table_frame(address) == self.table_frame(address),
            self.recursive() ==> self.set_entry(table, index, word).recursive(),
            self.recursive() ==> self.set_entry(table, index, word).root() == self.root(),
    {
        let after = self.set_entry(table, index, word);
        assert forall|frame: nat, i: nat|
            i < 512 && #[trigger] self.next_table(frame, i).is_some() implies after.next_table(
            frame,
            i,
        ) == self.next_table(frame, i) by {
            assert(frame * 512 + i != table * 512 + index);
        }
    }

    /// Clearing a frame leaves the entries of every other frame as they were.
    pub proof fn lemma_zero_table_entries(self, fresh: nat)
        ensures
            forall|frame: nat, i: nat|
                i < 512 ==> #[trigger] self.zero_table(fresh).entry(frame, i) == if frame
                    == fresh {
                    0
                } else {
                    self.entry(frame, i)
                },
    {
        assert forall|frame: nat, i: nat| i < 512 implies #[trigger] self.zero_table(fresh).entry(
            frame,
            i,
        ) == if frame == fresh {
            0
        } else {
            self.entry(frame, i)
        } by {
            if frame != fresh {
                assert(!(fresh * 512 <= frame * 512 + i < fresh * 512 + 512));
            }
        }
    }

    /// Under the recursive mapping, the table that an entry leads to is found
    /// at the child address.
    pub proof fn lemma_descend(self, address: u64, depth: nat, index: nat)
        requires
            self.recursive(),
            is_table_address(address, depth),
            2 <= depth <= 4,
            index < 512,
        ensures
            is_table_address(child_address(address, index), (depth - 1) as nat),
            self.table_frame(child_address(address, index)) == match self.table_frame(address) {
                Some(table) => self.next_table(table, index),
                None => None,
            },
            forall|frame: nat|
                self.on_table_path(child_address(address, index), frame) <==> self.on_table_path(
                    address,
                    frame,
                ) || (self.table_frame(address).is_some() && self.next_table(
                    self.table_frame(address).unwrap(),
                    index,
                ) == Some(frame)),
    {
        lemma_child_address(address, index as u64);
    }
}

/// A handle on the page table at a virtual address. `L` is the table's level;
/// only a table above the lowest level leads to further tables.
pub struct Table<L: TableLevel> {
    address: u64,
    level: PhantomData<L>,
}

impl<L: TableLevel> Table<L> {
    #[verifier::type_invariant]
    spec fn well_placed(self) -> bool {
        is_table_address(self.address, L::depth())
    }

    /// Virtual address of the table.
    pub closed spec fn address(&self) -> u64 {
        self.address
    }

    /// The table at `address`, which has to be a table's address at this level.
    pub fn at(address: u64) -> (table: Table<L>)
        requires
            is_table_address(address, L::depth()),
        ensures
            table.address() == address,
    {
        Table { address, level: PhantomData }
    }

    /// Virtual address of the table.
    pub fn start_address(&self) -> (address: u64)
        ensures
            address == self.address(),
            is_table_address(address, L::depth()),
    {
        proof {
            use_type_invariant(self);
        }
        self.address
    }

    /// Entry `index` of the table.
    pub fn entry(&self, machine: &Machine, index: usize) -> (entry: PageEntry)
        requires
            index < 512,
            machine@.table_frame(self.address()).is_some(),
        ensures
            entry@ == machine@.entry(machine@.table_frame(self.address()).unwrap(), index as nat),
    {
        match machine.table_frame(self.address) {
            Some(frame) => PageEntry(machine.read(&frame, index)),
            None => PageEntry(0),
        }
    }

    /// Overwrites entry `index` of the table.
    pub fn set_entry(&self, machine: &mut Machine, index: usize, entry: PageEntry)
        requires
            index < 512,
            old(machine)@.table_frame(self.address()).is_some(),
        ensures
            final(machine)@ == old(machine)@.set_entry(
                old(machine)@.table_frame(self.address()).unwrap(),
                index as nat,
                entry@,
            ),
    {
        match machine.table_frame(self.address) {
            Some(frame) => {
                machine.write(&frame, index, entry.0);
            },
            None => {},
        }
    }

    /// Clears all 512 entries of the table.
    pub fn zero(&self, machine: &mut Machine)
        requires
            old(machine)@.table_frame(self.address()).is_some(),
        ensures
            final(machine)@ == old(machine)@.zero_table(
                old(machine)@.table_frame(self.address()).unwrap(),
            ),
    {
        match machine.table_frame(self.address) {
            Some(frame) => {
                machine.zero_frame(&frame);
            },
            None => {},
        }
    }
}

impl<L: HeirarchialLevel> Table<L> {
    /// Address of the table that entry `index` leads to, if the entry is
    /// present and does not map a huge page. The address is this table's
    /// own, moved up by one level, with `index` as the last index.
    pub fn next_table_address(&self, machine: &Machine, index: usize) -> (address: Option<u64>)
        requires
            index < 512,
            machine@.table_frame(self.address()).is_some(),
        ensures
            address.is_some() == machine@.next_table(
                machine@.table_frame(self.address()).unwrap(),
                index as nat,
            ).is_some(),
            address.is_some() ==> address.unwrap() == child_address(self.address(), index as nat),
    {
        let entry_flags = self.entry(machine, index).flags();
        if entry_flags.contains_bits(PRESENT) && !entry_flags.contains_bits(HUGE_PAGE) {
            let table_address = self.address;
            Some((table_address << 9) | ((index as u64) << 12))
        } else {
            None
        }
    }

    /// The table that entry `index` leads to, if the entry is present and
    /// does not map a huge page.
    pub fn next_table(&self, machine: &Machine, index: usize) -> (next: Option<Table<L::NextLevel>>)
        requires
            index < 512,
            machine@.table_frame(self.address()).is_some(),
        ensures
            next.is_some() == machine@.next_table(
                machine@.table_frame(self.address()).unwrap(),
                index as nat,
            ).is_some(),
            next.is_some() ==> next.unwrap().address() == child_address(
                self.address(),
                index as nat,
            ),
    {
        proof {
            use_type_invariant(self);
            L::lemma_descends();
            lemma_child_address(self.address, index as u64);
        }
        match self.next_table_address(machine, index) {
            Some(address) => Some(Table { address, level: PhantomData }),
            None => None,
        }
    }
}

/// Whether `after` hands out what `before` would after `count` allocations.
pub open spec fn supply_advanced<A: FrameAllocator>(before: &A, after: &A, count: nat) -> bool {
    forall|k: nat| #[trigger] after.upcoming(k) == before.upcoming(k + count)
}

impl<L: HeirarchialLevel> Table<L> {
    /// The table that entry `index` leads to; where there is none yet, a
    /// frame is taken from `allocator`, entered present and writable, and
    /// cleared. This is the one place where the table tree grows.
    ///
    /// The entry must not map a huge page. A new table needs a frame from
    /// the allocator whose address fits an entry and which no table on the
    /// way here occupies.
    pub fn next_table_create<A: FrameAllocator>(
        &self,
        machine: &mut Machine,
        index: usize,
        allocator: &mut A,
    ) -> (next: Table<L::NextLevel>)
        requires
            index < 512,
            old(machine)@.recursive(),
            old(machine)@.table_frame(self.address()).is_some(),
            old(machine)@.next_table(
                old(machine)@.table_frame(self.address()).unwrap(),
                index as nat,
            ).is_none() ==> {
                &&& !word_huge(
                    old(machine)@.entry(
                        old(machine)@.table_frame(self.address()).unwrap(),
                        index as nat,
                    ),
                )
                &&& old(allocator).upcoming(0).is_some()
                &&& old(allocator).upcoming(0).unwrap()@ < ENTRY_FRAME_LIMIT
                &&& !old(machine)@.on_table_path(
                    self.address(),
                    old(allocator).upcoming(0).unwrap()@,
                )
            },
        ensures
            next.address() == child_address(self.address(), index as nat),
            old(machine)@.next_table(
                old(machine)@.table_frame(self.address()).unwrap(),
                index as nat,
            ).is_some() ==> final(machine)@ == old(machine)@ && supply_advanced(
                old(allocator),
                final(allocator),
                0,
            ),
            old(machine)@.next_table(
                old(machine)@.table_frame(self.address()).unwrap(),
                index as nat,
            ).is_none() ==> final(machine)@ == old(machine)@.with_new_table(
                old(machine)@.table_frame(self.address()).unwrap(),
                index as nat,
                old(allocator).upcoming(0).unwrap()@,
            ) && supply_advanced(old(allocator), final(allocator), 1),
            final(machine)@.recursive(),
            final(machine)@.root() == old(machine)@.root(),
            final(machine)@.table_frame(self.address()) == old(machine)@.table_frame(
                self.address(),
            ),
            final(machine)@.table_frame(next.address()).is_some(),
            final(machine)@.table_frame(next.address()) == final(machine)@.next_table(
                old(machine)@.table_frame(self.address()).unwrap(),
                index as nat,
            ),
    {
        proof {
            use_type_invariant(self);
            L::lemma_descends();
            lemma_child_address(self.address, index as u64);
        }
        self.try_next_table_create(machine, index, allocator).unwrap()
    }

    /// The table that entry `index` leads to, made if it is missing, or
    /// `None` where it can neither be found nor made: the table at this
    /// address cannot be reached, the entry maps a huge page, the allocator
    /// has no frame, or its frame has an address that does not fit an entry
    /// or is one of the tables on the way here. A frame that was taken from
    /// the allocator is not given back.
    pub fn try_next_table_create<A: FrameAllocator>(
        &self,
        machine: &mut Machine,
        index: usize,
        allocator: &mut A,
    ) -> (found: Option<Table<L::NextLevel>>)
        requires
            index < 512,
            old(machine)@.recursive(),
        ensures
            found.is_some() == old(machine)@.can_grow(
                self.address(),
                index as nat,
                old(allocator),
                0,
            ),
            found.is_some() ==> ({
                let next = found.unwrap();
                &&& next.address() == child_address(self.address(), index as nat)
                &&& final(machine)@ == old(machine)@.grow(
                    self.address(),
                    index as nat,
                    old(allocator),
                    0,
                ).0
                &&& supply_advanced(
                    old(allocator),
                    final(allocator),
                    old(machine)@.grow(self.address(), index as nat, old(allocator), 0).1,
                )
                &&& final(machine)@.recursive()
                &&& final(machine)@.root() == old(machine)@.root()
                &&& final(machine)@.table_frame(self.address()) == old(machine)@.table_frame(
                    self.address(),
                )
                &&& final(machine)@.table_frame(next.address()).is_some()
                &&& final(machine)@.table_frame(next.address()) == final(machine)@.next_table(
                    old(machine)@.table_frame(self.address()).unwrap(),
                    index as nat,
                )
            }),
            found.is_none() ==> final(machine)@.table_base == old(machine)@.table_base,
    {
        proof {
            use_type_invariant(self);
            L::lemma_descends();
            machine@.lemma_descend(self.address, L::depth(), index as nat);
        }
        if machine.table_frame(self.address).is_none() {
            return None;
        }
        let ghost table = machine@.table_frame(self.address()).unwrap();
        match self.next_table(machine, index) {
            Some(next) => Some(next),
            None => {
                if self.entry(machine, index).flags().contains_bits(HUGE_PAGE) {
                    return None;
                }
                let frame = match allocator.allocate_frame() {
                    Some(frame) => frame,
                    None => { return None; },
                };
                if frame.number() >= ENTRY_FRAME_LIMIT || machine.lies_on_table_path(
                    self.address,
                    &frame,
                ) {
                    return None;
                }
                let ghost fresh = frame@;
                let mut entry = PageEntry(0);
                entry.set(frame, PageEntryFlags::from_bits_truncate(PRESENT | WRITABLE));
                let ghost before = machine@;
                proof {
                    crate::memory::paging::entry::lemma_flag_bits();
                    crate::memory::paging::entry::lemma_make_word(
                        fresh as u64,
                        PRESENT | WRITABLE,
                    );
                    before.lemma_set_entry_keeps_tables(table, index as nat, entry@);
                }
                self.set_entry(machine, index, entry);
                let ghost linked = machine@;
                proof {
                    linked.lemma_descend(self.address, L::depth(), index as nat);
                    linked.lemma_zero_table_entries(fresh);
                    assert(linked.next_table(table, index as nat) == Some(fresh));
                }
                let next: Table<L::NextLevel> = Table {
                    address: (self.address << 9) | ((index as u64) << 12),
                    level: PhantomData,
                };
                next.zero(machine);
                proof {
                    let cleared = machine@;
                    assert(cleared == before.with_new_table(table, index as nat, fresh));
                    assert(cleared.next_table(table, index as nat) == Some(fresh));
                    cleared.lemma_descend(self.address, L::depth(), index as nat);
                }
                Some(next)
            },
        }
    }
}

impl Machine {
    /// Whether `frame` is the loaded level-4 table or one of the tables that
    /// the processor passes on its way to the table at `address`, that table
    /// included.
    pub fn lies_on_table_path(&self, address: u64, frame: &Frame) -> (on_path: bool)
        ensures
            on_path == self@.on_table_path(address, frame@),
    {
        let number: u64 = address / 4096;
        assert((number >> 27) & 0o777 == (number / 0x800_0000) % 512 && (number >> 18) & 0o777 == (
        number / 0x4_0000) % 512 && (number >> 9) & 0o777 == (number / 512) % 512 && number
            & 0o777 == number % 512) by (bit_vector);
        let base = self.table_base();
        if frame.number() == base.number() {
            return true;
        }
        let p3 = match self.next_table(&base, ((number >> 27) & 0o777) as usize) {
            Some(table) => table,
            None => { return false; },
        };
        if frame.number() == p3.number() {
            return true;
        }
        let p2 = match self.next_table(&p3, ((number >> 18) & 0o777) as usize) {
            Some(table) => table,
            None => { return false; },
        };
        if frame.number() == p2.number() {
            return true;
        }
        let p1 = match self.next_table(&p2, ((number >> 9) & 0o777) as usize) {
            Some(table) => table,
            None => { return false; },
        };
        if frame.number() == p1.number() {
            return true;
        }
        match self.next_table(&p1, (number & 0o777) as usize) {
            Some(table) => frame.number() == table.number(),
            None => false,
        }
    }
}

} // verus!
