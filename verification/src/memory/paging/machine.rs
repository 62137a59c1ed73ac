//! The hardware as a value: the words of physical memory, the table-base
//! register and the TLB invalidations issued so far.

use vstd::prelude::*;
use std::collections::HashMap;
use crate::memory::Frame;
use crate::memory::paging::entry::{word_frame, word_huge, word_pointed_frame, word_present};
use crate::memory::paging::{p1_index_of, p2_index_of, p3_index_of, p4_index_of};

verus! {

broadcast use vstd::std_specs::hash::group_hash_axioms;

/// One invalidation of cached translations.
#[derive(Debug, Clone, Copy, PartialEq, Eq, Structural)]
pub enum TlbFlush {
    /// The translation of the page at this address.
    Page(u64),
    /// Every translation.
    All,
}

/// What the processor's memory-management unit works on.
pub struct MachineView {
    /// The words of physical memory: word `i` of frame `f` is at `f * 512 + i`.
    pub words: Map<nat, u64>,
    /// Number of the frame in the table-base register.
    pub table_base: nat,
    /// The invalidations issued so far, oldest first.
    pub flushes: Seq<TlbFlush>,
}

impl MachineView {
    /// Word `index` of frame `frame`.
    pub open spec fn entry(self, frame: nat, index: nat) -> u64 {
        self.words[frame * 512 + index]
    }

    /// The machine after a write of `word` to word `index` of frame `frame`.
    pub open spec fn set_entry(self, frame: nat, index: nat, word: u64) -> MachineView {
        MachineView { words: self.words.insert(frame * 512 + index, word), ..self }
    }

    /// The machine after the first `count` words of frame `frame` were cleared.
    pub open spec fn zero_words(self, frame: nat, count: nat) -> MachineView {
        MachineView {
            words: Map::new(
                |k: nat| true,
                |k: nat|
                    if frame * 512 <= k < frame * 512 + count {
                        0u64
                    } else {
                        self.words[k]
                    },
            ),
            ..self
        }
    }

    /// The machine after all 512 words of frame `frame` were cleared.
    pub open spec fn zero_table(self, frame: nat) -> MachineView {
        self.zero_words(frame, 512)
    }

    /// The machine after one more invalidation.
    pub open spec fn flushed(self, flush: TlbFlush) -> MachineView {
        MachineView { flushes: self.flushes.push(flush), ..self }
    }

    /// The machine with another frame in the table-base register.
    pub open spec fn based_at(self, frame: nat) -> MachineView {
        MachineView { table_base: frame, ..self }
    }

    /// The table that entry `index` of table `frame` leads to: the entry has
    /// to be present and must not map a huge page.
    pub open spec fn next_table(self, frame: nat, index: nat) -> Option<nat> {
        let word = self.entry(frame, index);
        if word_present(word) && !word_huge(word) {
            Some(word_frame(word))
        } else {
            None
        }
    }

    /// The frame behind a page as a table can use it: the frame that the
    /// processor reaches from `root` through four entries that are present,
    /// none of them a huge page.
    pub open spec fn table_walk(self, root: nat, page: nat) -> Option<nat> {
        match self.next_table(root, p4_index_of(page)) {
            None => None,
            Some(p3) => match self.next_table(p3, p3_index_of(page)) {
                None => None,
                Some(p2) => match self.next_table(p2, p2_index_of(page)) {
                    None => None,
                    Some(p1) => self.next_table(p1, p1_index_of(page)),
                },
            },
        }
    }

    /// The frame that holds the table at the virtual address `address`.
    pub open spec fn table_frame(self, address: u64) -> Option<nat> {
        self.table_walk(self.table_base, address as nat / 4096)
    }

    /// The frame that page `page` translates to when the walk starts at the
    /// level-4 table in frame `root`. A huge page at level 3 or 2 stands for
    /// 512 * 512 or 512 consecutive frames.
    pub open spec fn walk(self, root: nat, page: nat) -> Option<nat> {
        match self.next_table(root, p4_index_of(page)) {
            None => None,
            Some(p3) => {
                let e3 = self.entry(p3, p3_index_of(page));
                if word_present(e3) && word_huge(e3) {
                    Some(word_frame(e3) + p2_index_of(page) * 512 + p1_index_of(page))
                } else {
                    match self.next_table(p3, p3_index_of(page)) {
                        None => None,
                        Some(p2) => {
                            let e2 = self.entry(p2, p2_index_of(page));
                            if word_present(e2) && word_huge(e2) {
                                Some(word_frame(e2) + p1_index_of(page))
                            } else {
                                match self.next_table(p2, p2_index_of(page)) {
                                    None => None,
                                    Some(p1) => word_pointed_frame(
                                        self.entry(p1, p1_index_of(page)),
                                    ),
                                }
                            }
                        },
                    }
                }
            },
        }
    }

    /// What the processor translates page `page` to.
    pub open spec fn translate(self, page: nat) -> Option<nat> {
        self.walk(self.table_base, page)
    }

    /// The frame that the last entry of the loaded level-4 table names.
    pub open spec fn root(self) -> nat {
        word_frame(self.entry(self.table_base, 511))
    }

    /// The recursive mapping is in place: the last entry of the loaded
    /// level-4 table leads to a table whose last entry leads to itself.
    pub open spec fn recursive(self) -> bool {
        &&& self.next_table(self.table_base, 511) == Some(self.root())
        &&& self.next_table(self.root(), 511) == Some(self.root())
    }

    /// The loaded level-4 table is the one its own last entry names.
    pub open spec fn self_referencing(self) -> bool {
        self.next_table(self.table_base, 511) == Some(self.table_base)
    }
}

/// Physical memory, the table-base register and the record of TLB
/// invalidations. Memory that was never written reads as zero.
pub struct Machine {
    words: HashMap<u64, u64>,
    table_base: Frame,
    flushes: Vec<TlbFlush>,
}

impl View for Machine {
    type V = MachineView;

    closed spec fn view(&self) -> MachineView {
        MachineView {
            words: Map::new(
                |k: nat| true,
                |k: nat|
                    if k <= u64::MAX && self.words@.contains_key(k as u64) {
                        self.words@[k as u64]
                    } else {
                        0u64
                    },
            ),
            table_base: self.table_base@,
            flushes: self.flushes@,
        }
    }
}

impl Machine {
    /// A machine whose memory is all zero, with `table_base` in the
    /// table-base register and no invalidation issued.
    pub fn new(table_base: Frame) -> (machine: Machine)
        ensures
            machine@.table_base == table_base@,
            machine@.flushes == Seq::<TlbFlush>::empty(),
            forall|k: nat| #[trigger] machine@.words[k] == 0,
            forall|k: nat| #[trigger] machine@.words.contains_key(k),
    {
        Machine { words: HashMap::new(), table_base, flushes: Vec::new() }
    }

    /// Reads word `index` of frame `frame`.
    pub fn read(&self, frame: &Frame, index: usize) -> (word: u64)
        requires
            index < 512,
        ensures
            word == self@.entry(frame@, index as nat),
    {
        let key: u64 = frame.number() * 512 + index as u64;
        match self.words.get(&key) {
            Some(word) => *word,
            None => 0,
        }
    }

    /// Writes `word` to word `index` of frame `frame`.
    pub fn write(&mut self, frame: &Frame, index: usize, word: u64)
        requires
            index < 512,
        ensures
            final(self)@ == old(self)@.set_entry(frame@, index as nat, word),
    {
        let key: u64 = frame.number() * 512 + index as u64;
        self.words.insert(key, word);
        assert(self@.words =~= old(self)@.set_entry(frame@, index as nat, word).words);
    }

    /// Clears all 512 words of frame `frame`.
    pub fn zero_frame(&mut self, frame: &Frame)
        ensures
            final(self)@ == old(self)@.zero_table(frame@),
    {
        let first: u64 = frame.number() * 512;
        let mut index: u64 = 0;
        assert(self@.words =~= old(self)@.zero_words(frame@, 0).words);
        while index < 512
            invariant
                index <= 512,
                first == frame@ * 512,
                frame@ < crate::memory::FRAME_LIMIT,
                self@ == old(self)@.zero_words(frame@, index as nat),
            decreases 512 - index,
        {
            let ghost before = self@;
            self.words.insert(first + index, 0);
            index = index + 1;
            assert forall|k: nat|
                #[trigger] self@.words[k] == old(self)@.zero_words(frame@, index as nat).words[k] by {
                assert(before.words[k] == old(self)@.zero_words(
                    frame@,
                    (index - 1) as nat,
                ).words[k]);
            }
            assert(self@.words =~= old(self)@.zero_words(frame@, index as nat).words);
        }
    }

    /// The frame in the table-base register.
    pub fn table_base(&self) -> (frame: Frame)
        ensures
            frame@ == self@.table_base,
    {
        self.table_base.clone()
    }

    /// Loads `frame` into the table-base register.
    pub fn set_table_base(&mut self, frame: &Frame)
        ensures
            final(self)@ == old(self)@.based_at(frame@),
    {
        self.table_base = frame.clone();
    }

    /// Records the invalidation of the translation of the page at `address`.
    pub fn flush(&mut self, address: u64)
        ensures
            final(self)@ == old(self)@.flushed(TlbFlush::Page(address)),
    {
        self.flushes.push(TlbFlush::Page(address));
    }

    /// Records the invalidation of every translation.
    pub fn flush_all(&mut self)
        ensures
            final(self)@ == old(self)@.flushed(TlbFlush::All),
    {
        self.flushes.push(TlbFlush::All);
    }

    /// The invalidations issued so far, oldest first.
    pub fn flushes(&self) -> (flushes: &Vec<TlbFlush>)
        ensures
            flushes@ == self@.flushes,
    {
        &self.flushes
    }

    /// The table that entry `index` of the table in `frame` leads to.
    pub fn next_table(&self, frame: &Frame, index: usize) -> (next: Option<Frame>)
        requires
            index < 512,
        ensures
            next.is_some() == self@.next_table(frame@, index as nat).is_some(),
            next.is_some() ==> next.unwrap()@ == self@.next_table(frame@, index as nat).unwrap(),
    {
        let entry = crate::memory::paging::entry::PageEntry(self.read(frame, index));
        let flags = entry.flags();
        if flags.contains_bits(crate::memory::paging::entry::PRESENT) && !flags.contains_bits(
            crate::memory::paging::entry::HUGE_PAGE,
        ) {
            entry.pointed_frame()
        } else {
            None
        }
    }

    /// Whether the recursive mapping is in place: the last entry of the
    /// loaded level-4 table leads to a table whose last entry leads to
    /// itself.
    pub fn is_recursive(&self) -> (recursive: bool)
        ensures
            recursive == self@.recursive(),
    {
        let base = self.table_base();
        match self.next_table(&base, 511) {
            Some(root) => match self.next_table(&root, 511) {
                Some(again) => again.number() == root.number(),
                None => false,
            },
            None => false,
        }
    }

    /// Whether the loaded level-4 table is the one its own last entry names.
    pub fn is_self_referencing(&self) -> (own: bool)
        ensures
            own == self@.self_referencing(),
    {
        let base = self.table_base();
        match self.next_table(&base, 511) {
            Some(root) => root.number() == base.number(),
            None => false,
        }
    }

    /// The frame that holds the table at the virtual address `address`, as
    /// the processor finds it from the table-base register.
    pub fn table_frame(&self, address: u64) -> (frame: Option<Frame>)
        ensures
            frame.is_some() == self@.table_frame(address).is_some(),
            frame.is_some() ==> frame.unwrap()@ == self@.table_frame(address).unwrap(),
    {
        let number: u64 = address / 4096;
        assert((number >> 27) & 0o777 == (number / 0x800_0000) % 512 && (number >> 18) & 0o777 == (
        number / 0x4_0000) % 512 && (number >> 9) & 0o777 == (number / 512) % 512 && number
            & 0o777 == number % 512) by (bit_vector);
        let base = self.table_base();
        let p3 = match self.next_table(&base, ((number >> 27) & 0o777) as usize) {
            Some(frame) => frame,
            None => { return None; },
        };
        let p2 = match self.next_table(&p3, ((number >> 18) & 0o777) as usize) {
            Some(frame) => frame,
            None => { return None; },
        };
        let p1 = match self.next_table(&p2, ((number >> 9) & 0o777) as usize) {
            Some(frame) => frame,
            None => { return None; },
        };
        self.next_table(&p1, (number & 0o777) as usize)
    }
}

} // verus!
