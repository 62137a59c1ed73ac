//! Why giving the kernel a hierarchy of its own goes through, and which
//! address space it leaves.

use vstd::prelude::*;
use crate::memory::FrameAllocator;
use crate::memory::paging::entry::{
    lemma_flag_bits, lemma_make_word, make_word, word_present, ElfSection, ENTRY_FRAME_LIMIT,
    PRESENT, WRITABLE,
};
use crate::memory::paging::hierarchy::is_path;
use crate::memory::paging::machine::{MachineView, TlbFlush};
use crate::memory::paging::remap::{
    boot_info_range, image_apart, image_frames, in_image, in_run, in_sections, is_plain_page,
    section_fits, section_range, VGA_FRAME,
};
use crate::memory::paging::temporary_page::TinyAllocator;
use crate::memory::paging::{is_page_number, p1_index_of, p4_index_of, REMAP_PAGE};

verus! {

impl MachineView {
    /// Whether `frame` is formatted as an empty level-4 table: all its
    /// entries are unused but the last, which leads to the frame itself.
    pub open spec fn is_empty_root(self, frame: nat) -> bool {
        &&& self.next_table(frame, 511) == Some(frame)
        &&& forall|i: nat| i < 511 ==> #[trigger] self.entry(frame, i) == 0
    }

    /// Writes to a frame that holds no table leave a tree a tree, with the
    /// same tables and translations.
    pub proof fn lemma_write_beside_tree(self, after: MachineView, written: nat)
        requires
            self.is_tree(),
            !self.is_tree_table(written),
            written != self.table_base,
            after.table_base == self.table_base,
            forall|table: nat, i: nat|
                i < 512 && table != written ==> #[trigger] after.entry(table, i) == self.entry(
                    table,
                    i,
                ),
        ensures
            after.is_tree(),
            after.root() == self.root(),
            forall|table: nat| #[trigger] after.is_tree_table(table) == self.is_tree_table(table),
            forall|page: nat|
                p4_index_of(page) != 511 ==> #[trigger] after.mapping(page) == self.mapping(page),
            forall|page: nat|
                p4_index_of(page) != 511 ==> #[trigger] after.is_leaf_mapped(page)
                    == self.is_leaf_mapped(page),
            forall|page: nat|
                p4_index_of(page) != 511 ==> #[trigger] after.p1_table(page) == self.p1_table(
                    page,
                ),
    {
        self.lemma_tree_is_recursive();
        self.lemma_root_is_table();
        assert(is_path(0, 0, 0, 0));
        assert(self.is_tree_table(self.root()));
        assert(after.entry(self.table_base, 511) == self.entry(self.table_base, 511));
        assert(after.entry(self.root(), 511) == self.entry(self.root(), 511));
        self.lemma_same_on_tables(after);
        assert forall|page: nat| p4_index_of(page) != 511 implies #[trigger] after.p1_table(page)
            == self.p1_table(page) by {
            self.lemma_tables_of_page(page);
            after.lemma_tables_of_page(page);
        }
    }

    /// In a tree, unmapping a page that is mapped through a level-1 table
    /// writes the page's entry and nothing else: the tables stay, and the
    /// page's level-1 table with them.
    pub proof fn lemma_unmap_keeps_tables(self, page: nat)
        requires
            self.is_tree(),
            is_page_number(page),
            p4_index_of(page) != 511,
            self.p1_table(page).is_some(),
        ensures
            self.unmap(page).is_tree(),
            self.unmap(page).root() == self.root(),
            self.unmap(page).table_base == self.table_base,
            self.unmap(page).p1_table(page) == self.p1_table(page),
            self.unmap(page).entry(self.p1_table(page).unwrap(), p1_index_of(page)) == 0,
            forall|table: nat| #[trigger]
                self.unmap(page).is_tree_table(table) == self.is_tree_table(table),
            forall|table: nat, i: nat|
                i < 512 && !(table == self.p1_table(page).unwrap() && i == p1_index_of(page))
                    ==> #[trigger] self.unmap(page).entry(table, i) == self.entry(table, i),
            forall|other: nat|
                is_page_number(other) && p4_index_of(other) != 511 && other != page
                    ==> #[trigger] self.unmap(page).mapping(other) == self.mapping(other),
            forall|other: nat|
                is_page_number(other) && p4_index_of(other) != 511 && other != page
                    && #[trigger] self.is_leaf_mapped(other) ==> self.keeps_leaf(
                    self.unmap(page),
                    other,
                ),
            forall|other: nat|
                is_page_number(other) && p4_index_of(other) != 511 && other != page
                    && #[trigger] self.is_vacant(other) ==> self.unmap(page).is_vacant(other),
            self.unmap(page).mapping(page).is_none(),
    {
        lemma_flag_bits();
        let p1 = self.p1_table(page).unwrap();
        let cleared = self.set_entry(p1, p1_index_of(page), 0);
        let done = self.unmap(page);
        self.lemma_write_leaf(page, 0);
        cleared.lemma_same_words(done);
        assert(done.p1_table(page) == cleared.p1_table(page));
        assert forall|table: nat| #[trigger] done.is_tree_table(table) == self.is_tree_table(
            table,
        ) by {
            assert forall|depth: nat, a: nat, b: nat, c: nat| #[trigger]
                done.table(depth, a, b, c) == cleared.table(depth, a, b, c) by {}
            if done.is_tree_table(table) {
                let (d, a, b, c) = choose|d: nat, a: nat, b: nat, c: nat|
                    is_path(d, a, b, c) && #[trigger] done.table(d, a, b, c) == Some(table);
                assert(self.table(d, a, b, c) == Some(table));
            }
            if self.is_tree_table(table) {
                let (d, a, b, c) = choose|d: nat, a: nat, b: nat, c: nat|
                    is_path(d, a, b, c) && #[trigger] self.table(d, a, b, c) == Some(table);
                assert(done.table(d, a, b, c) == Some(table));
            }
        }
        assert forall|table: nat, i: nat|
            i < 512 && !(table == p1 && i == p1_index_of(page)) implies #[trigger] done.entry(
            table,
            i,
        ) == self.entry(table, i) by {
            assert(table * 512 + i != p1 * 512 + p1_index_of(page));
        }
        assert forall|other: nat|
            is_page_number(other) && p4_index_of(other) != 511 && other != page implies (
        #[trigger] done.mapping(other)) == self.mapping(other) by {
            assert(cleared.mapping(other) == self.mapping(other));
        }
        assert forall|other: nat|
            is_page_number(other) && p4_index_of(other) != 511 && other != page
                && #[trigger] self.is_vacant(other) implies done.is_vacant(other) by {
            assert(cleared.is_vacant(other));
            assert(done.is_vacant(other) == cleared.is_vacant(other));
        }
        assert forall|other: nat|
            is_page_number(other) && p4_index_of(other) != 511 && other != page
                && #[trigger] self.is_leaf_mapped(other) implies self.keeps_leaf(done, other) by {
            assert(cleared.is_leaf_mapped(other));
            assert(done.is_leaf_mapped(other) == cleared.is_leaf_mapped(other)) by {
                assert(done.p1_table(other) == cleared.p1_table(other));
            }
        }
    }

    /// Mapping the page through which a frame is formatted: the frame is
    /// none of the tables that map the page.
    proof fn lemma_format_mapped<A: FrameAllocator>(self, frame: nat, page: nat, allocator: &A)
        requires
            self.is_tree(),
            self.self_referencing(),
            is_page_number(page),
            p4_index_of(page) != 511,
            self.is_vacant(page),
            frame < ENTRY_FRAME_LIMIT,
            !self.is_table(frame),
            self.has_fresh_frames(allocator, 0, 3),
            forall|k: nat| k < 3 ==> (#[trigger] allocator.upcoming(k)).unwrap()@ != frame,
        ensures
            self.can_format_table(frame, page, allocator),
            ({
                let (mapped, paid) = self.map_to(page, frame, WRITABLE, allocator, 0);
                &&& mapped.is_tree()
                &&& mapped.root() == self.root()
                &&& mapped.table_base == self.table_base
                &&& paid <= 3
                &&& mapped.is_leaf_mapped(page)
                &&& !mapped.is_tree_table(frame)
                &&& forall|table: nat| #[trigger]
                    mapped.is_tree_table(table) ==> self.is_tree_table(table) || Self::is_supplied(
                        allocator,
                        0,
                        paid,
                        table,
                    )
                &&& forall|other: nat|
                    is_page_number(other) && p4_index_of(other) != 511 && other != page
                        ==> #[trigger] mapped.mapping(other) == self.mapping(other)
            }),
    {
        lemma_flag_bits();
        self.lemma_tree_tables();
        self.lemma_vacant_is_unmapped(page);
        self.lemma_map_to_in_tree(page, frame, WRITABLE, allocator, 0, 3);
        let (mapped, paid) = self.map_to(page, frame, WRITABLE, allocator, 0);
        mapped.lemma_page_tables_are_tables(page);
        assert forall|table: nat| #[trigger] mapped.is_tree_table(table) implies (
        self.is_tree_table(table) || Self::is_supplied(allocator, 0, paid, table)) by {
            reveal(MachineView::confined_to);
        }
        assert(!mapped.is_tree_table(frame)) by {
            if mapped.is_tree_table(frame) {
                assert(Self::is_supplied(allocator, 0, paid, frame));
                let k = choose|k: nat|
                    0 <= k < paid && (#[trigger] allocator.upcoming(k)).is_some()
                        && allocator.upcoming(k).unwrap()@ == frame;
                assert(allocator.upcoming(k).unwrap()@ != frame);
            }
        }
        assert(!mapped.is_table_of(page, frame));
    }

    /// In a tree whose loaded table is its root, a frame that holds no table
    /// can be formatted as an empty level-4 table through a page that
    /// nothing stands in the way of, with three fresh frames for the page's
    /// tables. That leaves a tree with the same translations in which the
    /// page has its level-1 table and is not mapped; the frame is formatted
    /// and is no table of the tree.
    pub proof fn lemma_format_in_tree<A: FrameAllocator>(
        self,
        frame: nat,
        page: nat,
        allocator: &A,
    )
        requires
            self.is_tree(),
            self.self_referencing(),
            is_page_number(page),
            p4_index_of(page) != 511,
            self.is_vacant(page),
            frame < ENTRY_FRAME_LIMIT,
            !self.is_table(frame),
            self.has_fresh_frames(allocator, 0, 3),
            forall|k: nat| k < 3 ==> (#[trigger] allocator.upcoming(k)).unwrap()@ != frame,
        ensures
            self.can_format_table(frame, page, allocator),
            ({
                let done = self.format_table(frame, page, allocator);
                let paid = self.map_to(page, frame, WRITABLE, allocator, 0).1;
                &&& done.is_tree()
                &&& done.root() == self.root()
                &&& done.table_base == self.table_base
                &&& paid <= 3
                &&& done.p1_table(page).is_some()
                &&& done.entry(done.p1_table(page).unwrap(), p1_index_of(page)) == 0
                &&& done.is_empty_root(frame)
                &&& !done.is_tree_table(frame)
                &&& forall|table: nat| #[trigger]
                    done.is_tree_table(table) ==> self.is_tree_table(table) || Self::is_supplied(
                        allocator,
                        0,
                        paid,
                        table,
                    )
                &&& forall|other: nat|
                    is_page_number(other) && p4_index_of(other) != 511 && other != page
                        ==> #[trigger] done.mapping(other) == self.mapping(other)
            }),
    {
        lemma_flag_bits();
        self.lemma_format_mapped(frame, page, allocator);
        let (mapped, paid) = self.map_to(page, frame, WRITABLE, allocator, 0);
        let word = make_word(frame, PRESENT | WRITABLE);
        lemma_make_word(frame as u64, PRESENT | WRITABLE);
        let cleared = mapped.zero_table(frame);
        let linked = cleared.set_entry(frame, 511, word);
        mapped.lemma_zero_table_entries(frame);
        assert forall|table: nat, i: nat| i < 512 && table != frame implies #[trigger] linked.entry(
            table,
            i,
        ) == mapped.entry(table, i) by {
            assert(cleared.entry(table, i) == mapped.entry(table, i));
            assert(table * 512 + i != frame * 512 + 511);
        }
        mapped.lemma_tree_tables();
        assert(frame != mapped.table_base) by {
            self.lemma_tree_tables();
        }
        mapped.lemma_write_beside_tree(linked, frame);
        linked.lemma_unmap_keeps_tables(page);
        let done = linked.unmap(page);
        let p1 = linked.p1_table(page).unwrap();
        linked.lemma_page_tables_are_tables(page);
        assert(p1 != frame);
        assert(linked.entry(frame, 511) == word);
        assert forall|i: nat| i < 511 implies #[trigger] done.entry(frame, i) == 0 by {
            assert(cleared.entry(frame, i) == 0);
            assert(frame * 512 + i != frame * 512 + 511);
            assert(linked.entry(frame, i) == 0);
        }
        assert(done.entry(frame, 511) == word);
        assert forall|other: nat|
            is_page_number(other) && p4_index_of(other) != 511 && other != page implies (
        #[trigger] done.mapping(other)) == self.mapping(other) by {
            assert(linked.mapping(other) == mapped.mapping(other));
        }
    }
}

impl MachineView {
    /// Whether the machine is ready for work in the hierarchy of `inactive`
    /// through the page `page`: the loaded table is the root of a tree,
    /// `inactive` is formatted as an empty level-4 table and is no table of
    /// the tree, and the page has its level-1 table and is not mapped.
    pub open spec fn is_ready_for(self, inactive: nat, page: nat) -> bool {
        &&& self.is_tree()
        &&& self.root() == self.table_base
        &&& self.table_base < ENTRY_FRAME_LIMIT
        &&& inactive < ENTRY_FRAME_LIMIT
        &&& is_page_number(page)
        &&& p4_index_of(page) != 511
        &&& self.p1_table(page).is_some()
        &&& self.entry(self.p1_table(page).unwrap(), p1_index_of(page)) == 0
        &&& self.is_empty_root(inactive)
        &&& !self.is_tree_table(inactive)
    }

    /// The machine with the loaded table mapped at `page`, before its last
    /// entry is pointed to another table.
    pub open spec fn with_base_at(self, page: nat) -> MachineView {
        self.set_entry(
            self.p1_table(page).unwrap(),
            p1_index_of(page),
            make_word(self.table_base, WRITABLE | PRESENT),
        )
    }

    /// A machine that is ready for work in the hierarchy of a table can
    /// enter it: the loaded table is mapped at the page without a frame from
    /// the allocator, and the hierarchy that the mapper then works on is a
    /// tree of one table in which no page is mapped and nothing stands in
    /// the way of any.
    pub proof fn lemma_enter_in_tree<A: FrameAllocator>(
        self,
        inactive: nat,
        page: nat,
        allocator: &A,
        used: nat,
    )
        requires
            self.is_ready_for(inactive, page),
        ensures
            self.can_map_to(page, self.table_base, allocator, used),
            self.mapping(page).is_none(),
            self.with_base_at(page).is_tree(),
            self.with_base_at(page).root() == self.table_base,
            self.with_base_at(page).table_base == self.table_base,
            self.with_base_at(page).is_leaf_mapped(page),
            self.with_base_at(page).mapping(page) == Some(self.table_base),
            forall|table: nat| #[trigger]
                self.with_base_at(page).is_tree_table(table) == self.is_tree_table(table),
            ({
                let entered = self.enter_inactive(inactive, page, allocator, used);
                &&& entered == self.with_base_at(page).set_entry(
                    self.table_base,
                    511,
                    make_word(inactive, PRESENT | WRITABLE),
                ).flushed(TlbFlush::All)
                &&& entered.is_tree()
                &&& entered.root() == inactive
                &&& entered.table_base == self.table_base
                &&& forall|table: nat| #[trigger] entered.is_tree_table(table) == (table == inactive)
                &&& forall|other: nat|
                    p4_index_of(other) != 511 ==> (#[trigger] entered.mapping(other)).is_none()
                &&& forall|other: nat| p4_index_of(other) != 511 ==> #[trigger] entered.is_vacant(other)
            }),
    {
        lemma_flag_bits();
        let base = self.table_base;
        let p1 = self.p1_table(page).unwrap();
        self.lemma_tree_is_recursive();
        self.lemma_map_to_existing(page, base, WRITABLE, allocator, used);
        assert(self.mapping(page).is_none()) by {
            self.lemma_tables_of_page(page);
        }
        let mapped = self.with_base_at(page);
        assert((WRITABLE | PRESENT) == (PRESENT | WRITABLE)) by (bit_vector);
        assert(mapped == self.map_to(page, base, WRITABLE, allocator, used).0);
        self.lemma_write_leaf(page, make_word(base, WRITABLE | PRESENT));
        assert forall|table: nat| #[trigger] mapped.is_tree_table(table) == self.is_tree_table(
            table,
        ) by {
            if mapped.is_tree_table(table) {
                let (d, a, b, c) = choose|d: nat, a: nat, b: nat, c: nat|
                    is_path(d, a, b, c) && #[trigger] mapped.table(d, a, b, c) == Some(table);
                assert(self.table(d, a, b, c) == Some(table));
            }
            if self.is_tree_table(table) {
                let (d, a, b, c) = choose|d: nat, a: nat, b: nat, c: nat|
                    is_path(d, a, b, c) && #[trigger] self.table(d, a, b, c) == Some(table);
                assert(mapped.table(d, a, b, c) == Some(table));
            }
        }
        let word = make_word(inactive, PRESENT | WRITABLE);
        lemma_make_word(inactive as u64, PRESENT | WRITABLE);
        let pointed = mapped.set_entry(base, 511, word);
        let entered = pointed.flushed(TlbFlush::All);
        assert(entered == self.enter_inactive(inactive, page, allocator, used));
        self.lemma_page_tables_are_tables(page);
        self.lemma_root_is_table();
        assert(self.is_tree_table(base)) by {
            assert(is_path(0, 0, 0, 0));
            assert(self.table(0, 0, 0, 0) == Some(base));
        }
        assert(inactive != base && inactive != p1);
        assert(pointed.entry(base, 511) == word);
        assert(pointed.root() == inactive);
        assert forall|i: nat| i < 512 implies #[trigger] pointed.entry(inactive, i) == self.entry(
            inactive,
            i,
        ) by {
            assert(inactive * 512 + i != base * 512 + 511);
            assert(inactive * 512 + i != p1 * 512 + p1_index_of(page));
        }
        assert(pointed.recursive());
        pointed.lemma_empty_tree();
        pointed.lemma_same_words(entered);
        assert forall|table: nat| #[trigger] entered.is_tree_table(table) == (table
            == inactive) by {
            assert forall|depth: nat, a: nat, b: nat, c: nat| #[trigger]
                entered.table(depth, a, b, c) == pointed.table(depth, a, b, c) by {}
            if entered.is_tree_table(table) {
                let (d, a, b, c) = choose|d: nat, a: nat, b: nat, c: nat|
                    is_path(d, a, b, c) && #[trigger] entered.table(d, a, b, c) == Some(table);
                assert(pointed.table(d, a, b, c) == Some(table));
                assert(pointed.is_tree_table(table));
            }
            if table == inactive {
                assert(pointed.is_tree_table(table));
                let (d, a, b, c) = choose|d: nat, a: nat, b: nat, c: nat|
                    is_path(d, a, b, c) && #[trigger] pointed.table(d, a, b, c) == Some(table);
                assert(entered.table(d, a, b, c) == Some(table));
            }
        }
    }
}

impl MachineView {
    /// A page that is mapped through tables of a tree whose root is the
    /// loaded table leads to its frame whatever the last entry of the loaded
    /// table holds.
    proof fn lemma_walk_beside_recursive_entry(self, other: MachineView, page: nat)
        requires
            self.is_tree(),
            self.root() == self.table_base,
            is_page_number(page),
            p4_index_of(page) != 511,
            self.is_leaf_mapped(page),
            other.table_base == self.table_base,
            forall|table: nat, i: nat|
                i < 512 && !(table == self.table_base && i == 511) ==> #[trigger] other.entry(
                    table,
                    i,
                ) == self.entry(table, i),
        ensures
            other.table_frame((page * 4096) as u64) == self.table_frame((page * 4096) as u64),
            self.table_frame((page * 4096) as u64) == self.next_table(
                self.p1_table(page).unwrap(),
                p1_index_of(page),
            ),
    {
        let base = self.table_base;
        self.lemma_tree_is_recursive();
        self.lemma_page_as_table(page);
        self.lemma_tables_of_page(page);
        self.lemma_page_tables_are_tables(page);
        crate::memory::paging::lemma_page_number_bound(page);
        let p3 = self.p3_table(page).unwrap();
        let p2 = self.p2_table(page).unwrap();
        let p1 = self.p1_table(page).unwrap();
        assert(p3 != base && p2 != base && p1 != base) by {
            reveal(MachineView::is_tree);
        }
        assert(other.entry(base, p4_index_of(page)) == self.entry(base, p4_index_of(page)));
        assert(other.entry(p3, crate::memory::paging::p3_index_of(page)) == self.entry(
            p3,
            crate::memory::paging::p3_index_of(page),
        ));
        assert(other.entry(p2, crate::memory::paging::p2_index_of(page)) == self.entry(
            p2,
            crate::memory::paging::p2_index_of(page),
        ));
        assert(other.entry(p1, p1_index_of(page)) == self.entry(p1, p1_index_of(page)));
    }

    /// The machine with the word `saved` back in the last entry of the
    /// loaded table.
    pub open spec fn restored(self, saved: u64) -> MachineView {
        self.set_entry(self.table_base, 511, saved)
    }

    /// After work in the hierarchy of another table that left the tables of
    /// the loaded hierarchy alone, the loaded table can get back the word
    /// that its last entry held: the loaded hierarchy is then the tree it
    /// was, with the page still leading to the loaded table.
    pub proof fn lemma_restore_in_tree(self, edited: MachineView, page: nat)
        requires
            self.is_tree(),
            self.root() == self.table_base,
            self.table_base < ENTRY_FRAME_LIMIT,
            is_page_number(page),
            p4_index_of(page) != 511,
            self.is_leaf_mapped(page),
            self.next_table(self.p1_table(page).unwrap(), p1_index_of(page)) == Some(
                self.table_base,
            ),
            edited.table_base == self.table_base,
            forall|table: nat, i: nat|
                i < 512 && self.is_tree_table(table) && !(table == self.table_base && i == 511)
                    ==> #[trigger] edited.entry(table, i) == self.entry(table, i),
        ensures
            edited.can_leave_inactive(page, self.entry(self.table_base, 511)),
            edited.restored(self.entry(self.table_base, 511)).is_tree(),
            edited.restored(self.entry(self.table_base, 511)).root() == self.table_base,
            edited.restored(self.entry(self.table_base, 511)).p1_table(page) == self.p1_table(
                page,
            ),
            forall|table: nat| #[trigger]
                edited.restored(self.entry(self.table_base, 511)).is_tree_table(table)
                    == self.is_tree_table(table),
            forall|other: nat|
                p4_index_of(other) != 511 ==> #[trigger] edited.restored(
                    self.entry(self.table_base, 511),
                ).mapping(other) == self.mapping(other),
    {
        let base = self.table_base;
        let word = self.entry(base, 511);
        self.lemma_tree_is_recursive();
        let restored = edited.restored(word);
        self.lemma_root_is_table();
        self.lemma_page_tables_are_tables(page);
        let p1 = self.p1_table(page).unwrap();
        assert(restored.entry(base, 511) == word);
        assert(restored.root() == base);
        assert(restored.recursive());
        assert forall|table: nat, i: nat|
            i < 512 && self.is_tree_table(table) && !(table == self.root() && i
                == 511) implies #[trigger] restored.entry(table, i) == self.entry(table, i) by {
            assert(table * 512 + i != base * 512 + 511);
            assert(restored.entry(table, i) == edited.entry(table, i));
        }
        self.lemma_same_on_tables(restored);
        self.lemma_tables_of_page(page);
        restored.lemma_tables_of_page(page);
        assert(restored.p1_table(page) == Some(p1));
        restored.lemma_restored_page(edited, page, word, self.entry(p1, p1_index_of(page)));
    }

    /// A page that leads to the loaded table in a tree does so too where
    /// the last entry of the loaded table holds something else.
    proof fn lemma_restored_page(self, edited: MachineView, page: nat, saved: u64, leaf: u64)
        requires
            self.is_tree(),
            self.root() == self.table_base,
            self == edited.restored(saved),
            is_page_number(page),
            p4_index_of(page) != 511,
            self.p1_table(page).is_some(),
            self.p1_table(page).unwrap() != self.table_base ==> self.entry(
                self.p1_table(page).unwrap(),
                p1_index_of(page),
            ) == leaf,
            word_present(leaf),
            !crate::memory::paging::entry::word_huge(leaf),
            crate::memory::paging::entry::word_frame(leaf) == self.table_base,
        ensures
            edited.can_leave_inactive(page, saved),
    {
        let base = self.table_base;
        let p1 = self.p1_table(page).unwrap();
        self.lemma_tables_of_page(page);
        assert(p1 != base) by {
            reveal(MachineView::is_tree);
            assert(is_path(
                3,
                p4_index_of(page),
                crate::memory::paging::p3_index_of(page),
                crate::memory::paging::p2_index_of(page),
            ));
        }
        assert(self.is_leaf_mapped(page));
        assert forall|table: nat, i: nat|
            i < 512 && !(table == base && i == 511) implies #[trigger] edited.entry(table, i)
            == self.entry(table, i) by {
            assert(table * 512 + i != base * 512 + 511);
        }
        self.lemma_walk_beside_recursive_entry(edited, page);
    }

    /// After the last entry of the loaded table got back the word it held,
    /// the page that the table was mapped at is unmapped: the loaded
    /// hierarchy is the tree it was, its last entry holds what it held, and
    /// the tables of the other hierarchy are as the work left them.
    pub proof fn lemma_leave_in_tree(self, edited: MachineView, page: nat)
        requires
            self.is_tree(),
            self.root() == self.table_base,
            self.table_base < ENTRY_FRAME_LIMIT,
            is_page_number(page),
            p4_index_of(page) != 511,
            self.is_leaf_mapped(page),
            self.next_table(self.p1_table(page).unwrap(), p1_index_of(page)) == Some(
                self.table_base,
            ),
            edited.table_base == self.table_base,
            forall|table: nat| #[trigger] self.is_tree_table(table) ==> !edited.is_tree_table(table),
            forall|table: nat, i: nat|
                i < 512 && self.is_tree_table(table) && !(table == self.table_base && i == 511)
                    ==> #[trigger] edited.entry(table, i) == self.entry(table, i),
        ensures
            edited.can_leave_inactive(page, self.entry(self.table_base, 511)),
            ({
                let left = edited.leave_inactive(page, self.entry(self.table_base, 511));
                &&& left.is_tree()
                &&& left.table_base == self.table_base
                &&& left.root() == self.table_base
                &&& left.entry(self.table_base, 511) == self.entry(self.table_base, 511)
                &&& left.mapping(page).is_none()
                &&& forall|table: nat, i: nat|
                    i < 512 && edited.is_tree_table(table) ==> #[trigger] left.entry(table, i)
                        == edited.entry(table, i)
                &&& forall|other: nat|
                    is_page_number(other) && p4_index_of(other) != 511 && other != page
                        ==> #[trigger] left.mapping(other) == self.mapping(other)
            }),
    {
        let base = self.table_base;
        self.lemma_restore_in_tree(edited, page);
        let restored = edited.restored(self.entry(base, 511));
        let p1 = self.p1_table(page).unwrap();
        self.lemma_root_is_table();
        self.lemma_page_tables_are_tables(page);
        let flushed = restored.flushed(TlbFlush::All);
        restored.lemma_same_words(flushed);
        flushed.lemma_tables_of_page(page);
        restored.lemma_tables_of_page(page);
        assert forall|depth: nat, a: nat, b: nat, c: nat| #[trigger]
            flushed.table(depth, a, b, c) == restored.table(depth, a, b, c) by {}
        assert(flushed.p1_table(page) == Some(p1));
        flushed.lemma_unmap_keeps_tables(page);
        let left = flushed.unmap(page);
        assert(left == edited.leave_inactive(page, self.entry(base, 511)));
        assert(left.entry(base, 511) == self.entry(base, 511)) by {
            assert(p1 != base) by {
                reveal(MachineView::is_tree);
                self.lemma_tables_of_page(page);
            }
            assert(base * 512 + 511 != p1 * 512 + p1_index_of(page));
        }
        assert(self.is_tree_table(base)) by {
            assert(is_path(0, 0, 0, 0));
            assert(self.table(0, 0, 0, 0) == Some(base));
        }
        assert forall|table: nat, i: nat|
            i < 512 && edited.is_tree_table(table) implies #[trigger] left.entry(table, i)
            == edited.entry(table, i) by {
            assert(table != base);
            assert(table != p1);
            assert(left.entry(table, i) == flushed.entry(table, i));
            assert(table * 512 + i != base * 512 + 511);
        }
        assert forall|other: nat|
            is_page_number(other) && p4_index_of(other) != 511 && other != page implies (
        #[trigger] left.mapping(other)) == self.mapping(other) by {
            assert(left.mapping(other) == flushed.mapping(other));
            assert(flushed.mapping(other) == restored.mapping(other));
        }
    }

    /// Loading the root of a tree whose tables are as they were leaves that
    /// tree, with the same translations.
    pub proof fn lemma_switch_in_tree(self, left: MachineView)
        requires
            self.is_tree(),
            forall|table: nat, i: nat|
                i < 512 && self.is_tree_table(table) ==> #[trigger] left.entry(table, i)
                    == self.entry(table, i),
        ensures
            left.based_at(self.root()).is_tree(),
            left.based_at(self.root()).root() == self.root(),
            forall|page: nat|
                p4_index_of(page) != 511 ==> #[trigger] left.based_at(self.root()).mapping(page)
                    == self.mapping(page),
            forall|page: nat|
                p4_index_of(page) != 511 ==> #[trigger] left.based_at(
                    self.root(),
                ).is_leaf_mapped(page) == self.is_leaf_mapped(page),
            forall|page: nat|
                p4_index_of(page) != 511 ==> #[trigger] left.based_at(self.root()).leaf(page)
                    == self.leaf(page),
            forall|page: nat|
                p4_index_of(page) != 511 ==> #[trigger] left.based_at(self.root()).is_vacant(page)
                    == self.is_vacant(page),
            forall|table: nat| #[trigger]
                left.based_at(self.root()).is_tree_table(table) == self.is_tree_table(table),
    {
        let root = self.root();
        let switched = left.based_at(root);
        self.lemma_tree_is_recursive();
        self.lemma_root_is_table();
        assert(self.is_tree_table(root)) by {
            assert(is_path(0, 0, 0, 0));
            assert(self.table(0, 0, 0, 0) == Some(root));
        }
        assert(left.entry(root, 511) == self.entry(root, 511));
        assert(switched.entry(root, 511) == left.entry(root, 511));
        assert(switched.root() == root);
        assert(switched.recursive());
        assert forall|table: nat, i: nat|
            i < 512 && self.is_tree_table(table) && !(table == self.root() && i
                == 511) implies #[trigger] switched.entry(table, i) == self.entry(table, i) by {
            assert(switched.entry(table, i) == left.entry(table, i));
        }
        self.lemma_same_on_tables(switched);
    }
}

/// The allocator of the temporary page with the first three frames of
/// `allocator`.
pub open spec fn first_three<A: FrameAllocator>(allocator: &A) -> TinyAllocator {
    TinyAllocator::holding(allocator.upcoming(0), allocator.upcoming(1), allocator.upcoming(2))
}

/// Whether `frame` is one of the first three frames of `allocator`.
pub open spec fn is_first_three<A: FrameAllocator>(allocator: &A, frame: nat) -> bool {
    ||| allocator.upcoming(0).unwrap()@ == frame
    ||| allocator.upcoming(1).unwrap()@ == frame
    ||| allocator.upcoming(2).unwrap()@ == frame
}

impl MachineView {
    /// The first three frames of a fresh supply are a fresh supply for the
    /// allocator of the temporary page, which hands out no others.
    pub proof fn lemma_first_three_fresh<A: FrameAllocator>(self, allocator: &A, count: nat)
        requires
            self.has_fresh_frames(allocator, 0, count),
            count >= 4,
        ensures
            self.has_fresh_frames(&first_three(allocator), 0, 3),
            allocator.upcoming(3).is_some(),
            allocator.upcoming(3).unwrap()@ < ENTRY_FRAME_LIMIT,
            !self.is_table(allocator.upcoming(3).unwrap()@),
            !is_first_three(allocator, allocator.upcoming(3).unwrap()@),
            forall|k: nat|
                k < 3 ==> (#[trigger] first_three(allocator).upcoming(k)).unwrap()@
                    != allocator.upcoming(3).unwrap()@,
            forall|paid: nat, frame: nat|
                paid <= 3 && #[trigger] Self::is_supplied(&first_three(allocator), 0, paid, frame)
                    ==> is_first_three(allocator, frame),
    {
        reveal(MachineView::has_fresh_frames);
        assert(allocator.upcoming(0).is_some());
        assert(allocator.upcoming(1).is_some());
        assert(allocator.upcoming(2).is_some());
        assert(allocator.upcoming(3).is_some());
        TinyAllocator::lemma_holding_three(
            allocator.upcoming(0).unwrap(),
            allocator.upcoming(1).unwrap(),
            allocator.upcoming(2).unwrap(),
        );
        let tiny = first_three(allocator);
        assert forall|k: nat| k < 3 implies (#[trigger] tiny.upcoming(k)) == allocator.upcoming(
            k,
        ) by {}
        assert forall|paid: nat, frame: nat|
            paid <= 3 && #[trigger] Self::is_supplied(&tiny, 0, paid, frame) implies is_first_three(
            allocator,
            frame,
        ) by {
            let k = choose|k: nat|
                0 <= k < paid && (#[trigger] tiny.upcoming(k)).is_some() && tiny.upcoming(
                    k,
                ).unwrap()@ == frame;
            assert(tiny.upcoming(k) == allocator.upcoming(k));
        }
    }

    /// The frames of a fresh supply behind the first four are a fresh supply
    /// for a tree whose only table is the fourth, while the loaded table is
    /// a table of the tree that the supply is fresh for.
    pub proof fn lemma_rest_fresh<A: FrameAllocator>(
        self,
        entered: MachineView,
        allocator: &A,
        count: nat,
    )
        requires
            self.has_fresh_frames(allocator, 0, count),
            count >= 4,
            entered.table_base == self.table_base,
            forall|table: nat| #[trigger]
                entered.is_tree_table(table) == (table == allocator.upcoming(3).unwrap()@),
        ensures
            entered.has_fresh_frames(allocator, 4, (count - 4) as nat),
    {
        reveal(MachineView::has_fresh_frames);
        assert forall|k: nat| 4 <= k < 4 + (count - 4) implies (#[trigger] allocator.upcoming(
            k,
        )).is_some() && allocator.upcoming(k).unwrap()@ < ENTRY_FRAME_LIMIT && !entered.is_table(
            allocator.upcoming(k).unwrap()@,
        ) by {
            let fresh = allocator.upcoming(k).unwrap()@;
            assert(!self.is_table(fresh));
            assert(allocator.upcoming(3).unwrap()@ != allocator.upcoming(k).unwrap()@);
            if entered.is_table(fresh) {
                assert(entered.is_tree_table(fresh));
            }
        }
    }
}

impl MachineView {
    /// From a tree whose loaded table is its root, with a fresh supply of
    /// frames and nothing in the way of the temporary page, the new level-4
    /// table can be formatted and entered. The loaded hierarchy is then a
    /// tree whose tables are those it had and some of the first three
    /// frames; the new hierarchy is a tree of one table, the fourth frame,
    /// in which no page is mapped.
    pub proof fn lemma_rebuild_enter<A: FrameAllocator>(self, allocator: &A, count: nat)
        requires
            self.is_tree(),
            self.root() == self.table_base,
            self.table_base < ENTRY_FRAME_LIMIT,
            self.is_vacant(REMAP_PAGE as nat),
            self.has_fresh_frames(allocator, 0, count),
            count >= 4,
        ensures
            ({
                let tiny = first_three(allocator);
                let table = allocator.upcoming(3).unwrap()@;
                let page = REMAP_PAGE as nat;
                let formatted = self.format_table(table, page, &tiny);
                let paid = self.map_to(page, table, WRITABLE, &tiny, 0).1;
                let mapped = formatted.with_base_at(page);
                let entered = formatted.enter_inactive(table, page, &tiny, paid);
                &&& allocator.upcoming(3).is_some()
                &&& self.can_format_table(table, page, &tiny)
                &&& formatted.can_map_to(page, self.table_base, &tiny, paid)
                &&& formatted.table_base == self.table_base
                &&& mapped.entry(self.table_base, 511) == formatted.entry(self.table_base, 511)
                &&& mapped.is_tree()
                &&& mapped.root() == self.table_base
                &&& mapped.table_base == self.table_base
                &&& mapped.is_leaf_mapped(page)
                &&& mapped.next_table(mapped.p1_table(page).unwrap(), p1_index_of(page)) == Some(
                    self.table_base,
                )
                &&& forall|frame: nat| #[trigger]
                    mapped.is_tree_table(frame) ==> (self.is_tree_table(frame) || is_first_three(
                        allocator,
                        frame,
                    )) && frame != table
                &&& entered.is_tree()
                &&& entered.root() == table
                &&& entered.table_base == self.table_base
                &&& forall|frame: nat| #[trigger] entered.is_tree_table(frame) == (frame == table)
                &&& forall|other: nat|
                    p4_index_of(other) != 511 ==> (#[trigger] entered.mapping(other)).is_none()
                &&& forall|other: nat| p4_index_of(other) != 511 ==> #[trigger] entered.is_vacant(other)
                &&& entered.has_fresh_frames(allocator, 4, (count - 4) as nat)
                &&& forall|frame: nat, i: nat|
                    i < 512 && !(frame == self.table_base && i == 511) ==> #[trigger] entered.entry(
                        frame,
                        i,
                    ) == mapped.entry(frame, i)
            }),
    {
        lemma_flag_bits();
        let tiny = first_three(allocator);
        let table = allocator.upcoming(3).unwrap()@;
        let page = REMAP_PAGE as nat;
        self.lemma_first_three_fresh(allocator, count);
        self.lemma_tree_is_recursive();
        assert(self.self_referencing());
        self.lemma_format_in_tree(table, page, &tiny);
        let formatted = self.format_table(table, page, &tiny);
        let paid = self.map_to(page, table, WRITABLE, &tiny, 0).1;
        assert(formatted.is_ready_for(table, page));
        formatted.lemma_enter_in_tree(table, page, &tiny, paid);
        let mapped = formatted.with_base_at(page);
        let entered = formatted.enter_inactive(table, page, &tiny, paid);
        let p1 = formatted.p1_table(page).unwrap();
        lemma_make_word(self.table_base as u64, WRITABLE | PRESENT);
        formatted.lemma_write_leaf(page, make_word(self.table_base, WRITABLE | PRESENT));
        assert(mapped.p1_table(page) == Some(p1));
        assert(mapped.entry(p1, p1_index_of(page)) == make_word(
            self.table_base,
            WRITABLE | PRESENT,
        ));
        assert forall|frame: nat| #[trigger] mapped.is_tree_table(frame) implies (
        self.is_tree_table(frame) || is_first_three(allocator, frame)) && frame != table by {
            assert(formatted.is_tree_table(frame));
            if !self.is_tree_table(frame) {
                assert(Self::is_supplied(&tiny, 0, paid, frame));
            }
        }
        self.lemma_rest_fresh(entered, allocator, count);
        assert forall|frame: nat, i: nat|
            i < 512 && !(frame == self.table_base && i == 511) implies #[trigger] entered.entry(
            frame,
            i,
        ) == mapped.entry(frame, i) by {
            assert(frame * 512 + i != self.table_base * 512 + 511);
        }
    }
}

/// Whether `page` is a page outside the recursive mapping whose number is
/// that of a frame with an address that fits an entry.
pub open spec fn is_identity_number(page: nat) -> bool {
    is_plain_page(page) && page < ENTRY_FRAME_LIMIT
}

/// Whether each frame of the run can be mapped at its own address as far as
/// its number goes.
pub open spec fn is_identity_run(run: (nat, nat)) -> bool {
    forall|page: nat| run.0 <= page < run.0 + run.1 ==> #[trigger] is_identity_number(page)
}

/// Whether the kernel image lies where it can be mapped at its own address:
/// its sections fit, and its frames have numbers of pages outside the
/// recursive mapping.
pub open spec fn image_placed(
    sections: Seq<ElfSection>,
    boot_info_start: u64,
    boot_info_end: u64,
) -> bool {
    &&& forall|j: int|
        0 <= j < sections.len() ==> section_fits(#[trigger] sections[j]) && is_identity_run(
            section_range(sections[j]),
        )
    &&& is_identity_run(boot_info_range(boot_info_start, boot_info_end))
}

impl MachineView {
    /// Where nothing stands in the way of any page, a run of frames that can
    /// be mapped as far as their numbers go can be mapped.
    pub proof fn lemma_identity_run_mappable(self, run: (nat, nat))
        requires
            is_identity_run(run),
            forall|other: nat| p4_index_of(other) != 511 ==> #[trigger] self.is_vacant(other),
        ensures
            self.is_identity_range(run.0, run.1),
    {
        reveal(MachineView::is_identity_range);
        assert forall|page: nat| run.0 <= page < run.0 + run.1 implies (
        #[trigger] self.is_identity_page(page)) by {
            assert(is_identity_number(page));
            assert(self.is_vacant(page));
        }
    }

    /// Where nothing stands in the way of any page, a kernel image that lies
    /// where it can be mapped can be mapped.
    pub proof fn lemma_image_mappable(
        self,
        sections: Seq<ElfSection>,
        boot_info_start: u64,
        boot_info_end: u64,
    )
        requires
            image_placed(sections, boot_info_start, boot_info_end),
            forall|other: nat| p4_index_of(other) != 511 ==> #[trigger] self.is_vacant(other),
        ensures
            self.image_mappable(sections, boot_info_start, boot_info_end),
    {
        assert forall|j: int| 0 <= j < sections.len() implies section_fits(
            #[trigger] sections[j],
        ) && self.is_identity_range(
            section_range(sections[j]).0,
            section_range(sections[j]).1,
        ) by {
            self.lemma_identity_run_mappable(section_range(sections[j]));
        }
        self.lemma_identity_run_mappable(boot_info_range(boot_info_start, boot_info_end));
        assert(is_identity_run((VGA_FRAME as nat, 1 as nat))) by {
            assert forall|page: nat| VGA_FRAME <= page < VGA_FRAME + 1 implies (
            #[trigger] is_identity_number(page)) by {}
        }
        self.lemma_identity_run_mappable((VGA_FRAME as nat, 1 as nat));
    }

    /// A page of a kernel image that is mapped is mapped to the frame with
    /// its own number.
    pub proof fn lemma_image_page_mapped(
        self,
        sections: Seq<ElfSection>,
        boot_info_start: u64,
        boot_info_end: u64,
        page: nat,
    )
        requires
            self.maps_image(sections, boot_info_start, boot_info_end),
            in_image(sections, boot_info_start, boot_info_end, page),
        ensures
            self.is_identity_mapped(page),
    {
        reveal(MachineView::maps_identity);
        if in_sections(sections, 0, page) {
            let j = choose|j: int|
                0 <= j < sections.len() && in_run(section_range(#[trigger] sections[j]), page);
            assert(self.maps_identity(section_range(sections[j]).0, section_range(sections[j]).1));
        }
    }

    /// In the empty hierarchy of the new level-4 table, a kernel image that
    /// lies where it can be mapped and whose parts share no frame can be
    /// mapped with the frames behind the first four. That leaves a tree in
    /// which exactly the pages of the image are mapped, each to the frame
    /// with its own number; none of its tables is a table of the loaded
    /// hierarchy, whose tables are as they were.
    pub proof fn lemma_rebuild_edit<A: FrameAllocator>(
        self,
        loaded: MachineView,
        entered: MachineView,
        sections: Seq<ElfSection>,
        boot_info_start: u64,
        boot_info_end: u64,
        allocator: &A,
        count: nat,
    )
        requires
            self.has_fresh_frames(allocator, 0, count),
            count >= 4 + 3 * image_frames(sections, boot_info_start, boot_info_end),
            image_placed(sections, boot_info_start, boot_info_end),
            image_apart(sections, boot_info_start, boot_info_end),
            forall|frame: nat| #[trigger]
                loaded.is_tree_table(frame) ==> (self.is_tree_table(frame) || is_first_three(
                    allocator,
                    frame,
                )) && frame != allocator.upcoming(3).unwrap()@,
            entered.is_tree(),
            entered.table_base == loaded.table_base,
            forall|frame: nat| #[trigger]
                entered.is_tree_table(frame) == (frame == allocator.upcoming(3).unwrap()@),
            forall|other: nat|
                p4_index_of(other) != 511 ==> (#[trigger] entered.mapping(other)).is_none(),
            forall|other: nat| p4_index_of(other) != 511 ==> #[trigger] entered.is_vacant(other),
            entered.has_fresh_frames(allocator, 4, (count - 4) as nat),
            forall|frame: nat, i: nat|
                i < 512 && !(frame == loaded.table_base && i == 511) ==> #[trigger] entered.entry(
                    frame,
                    i,
                ) == loaded.entry(frame, i),
        ensures
            entered.can_map_image(sections, boot_info_start, boot_info_end, allocator, 4),
            ({
                let (edited, used) = entered.map_image(
                    sections,
                    boot_info_start,
                    boot_info_end,
                    allocator,
                    4,
                );
                &&& edited.is_tree()
                &&& edited.root() == entered.root()
                &&& edited.table_base == loaded.table_base
                &&& edited.flushes == entered.flushes
                &&& 4 <= used <= 4 + 3 * image_frames(sections, boot_info_start, boot_info_end)
                &&& edited.maps_image(sections, boot_info_start, boot_info_end)
                &&& forall|other: nat|
                    is_page_number(other) && p4_index_of(other) != 511 && !in_image(
                        sections,
                        boot_info_start,
                        boot_info_end,
                        other,
                    ) ==> (#[trigger] edited.mapping(other)).is_none()
                &&& forall|other: nat|
                    is_page_number(other) && p4_index_of(other) != 511 && !in_image(
                        sections,
                        boot_info_start,
                        boot_info_end,
                        other,
                    ) ==> #[trigger] edited.is_vacant(other)
                &&& edited.has_fresh_frames(allocator, used, (count - used) as nat)
                &&& forall|frame: nat| #[trigger]
                    loaded.is_tree_table(frame) ==> !edited.is_tree_table(frame)
                &&& forall|frame: nat, i: nat|
                    i < 512 && loaded.is_tree_table(frame) && !(frame == loaded.table_base && i
                        == 511) ==> #[trigger] edited.entry(frame, i) == loaded.entry(frame, i)
            }),
    {
        let table = allocator.upcoming(3).unwrap()@;
        entered.lemma_image_mappable(sections, boot_info_start, boot_info_end);
        entered.lemma_map_image_in_tree(
            sections,
            boot_info_start,
            boot_info_end,
            allocator,
            4,
            (count - 4) as nat,
        );
        let (edited, used) = entered.map_image(
            sections,
            boot_info_start,
            boot_info_end,
            allocator,
            4,
        );
        assert(edited.root() == entered.root() && edited.table_base == entered.table_base
            && edited.flushes == entered.flushes) by {
            reveal(MachineView::agrees_outside_image);
        }
        assert forall|other: nat|
            is_page_number(other) && p4_index_of(other) != 511 && !in_image(
                sections,
                boot_info_start,
                boot_info_end,
                other,
            ) implies (#[trigger] edited.mapping(other)).is_none() by {
            reveal(MachineView::agrees_outside_image);
            assert(edited.mapping(other) == entered.mapping(other));
        }
        assert forall|other: nat|
            is_page_number(other) && p4_index_of(other) != 511 && !in_image(
                sections,
                boot_info_start,
                boot_info_end,
                other,
            ) implies #[trigger] edited.is_vacant(other) by {
            reveal(MachineView::agrees_outside_image);
            assert(entered.is_vacant(other));
        }
        assert forall|frame: nat| #[trigger] loaded.is_tree_table(frame) implies !edited.is_tree_table(
            frame,
        ) by {
            reveal(MachineView::confined_to);
            reveal(MachineView::has_fresh_frames);
            if edited.is_tree_table(frame) {
                assert(frame != table);
                assert(!entered.is_tree_table(frame));
                assert(Self::is_supplied(allocator, 4, used, frame));
                let k = choose|k: nat|
                    4 <= k < used && (#[trigger] allocator.upcoming(k)).is_some()
                        && allocator.upcoming(k).unwrap()@ == frame;
                assert(!self.is_table(allocator.upcoming(k).unwrap()@));
                self.lemma_tree_table_is_table(frame);
                assert(allocator.upcoming(0).unwrap()@ != allocator.upcoming(k).unwrap()@);
                assert(allocator.upcoming(1).unwrap()@ != allocator.upcoming(k).unwrap()@);
                assert(allocator.upcoming(2).unwrap()@ != allocator.upcoming(k).unwrap()@);
            }
        }
        assert forall|frame: nat, i: nat|
            i < 512 && loaded.is_tree_table(frame) && !(frame == loaded.table_base && i
                == 511) implies #[trigger] edited.entry(frame, i) == loaded.entry(frame, i) by {
            reveal(MachineView::confined_to);
            assert(!edited.is_tree_table(frame));
            assert(edited.entry(frame, i) == entered.entry(frame, i));
        }
    }

    /// A table of the tree is a table.
    pub proof fn lemma_tree_table_is_table(self, frame: nat)
        ensures
            self.is_tree_table(frame) ==> self.is_table(frame),
    {
    }
}

impl MachineView {
    /// Whether the kernel can be given a hierarchy of its own, said of the
    /// machine as the boot code leaves it: the loaded hierarchy is a tree
    /// whose root is the loaded table, which lies in the kernel image;
    /// nothing stands in the way of the temporary page; the allocator has
    /// `count` fresh frames, four and three more for each frame of the
    /// image; and the image lies where it can be mapped at its own address,
    /// with no frame shared between its parts.
    pub open spec fn can_rebuild<A: FrameAllocator>(
        self,
        sections: Seq<ElfSection>,
        boot_info_start: u64,
        boot_info_end: u64,
        allocator: &A,
        count: nat,
    ) -> bool {
        &&& self.is_tree()
        &&& self.root() == self.table_base
        &&& is_identity_number(self.table_base)
        &&& self.is_vacant(REMAP_PAGE as nat)
        &&& self.has_fresh_frames(allocator, 0, count)
        &&& count >= 4 + 3 * image_frames(sections, boot_info_start, boot_info_end)
        &&& image_placed(sections, boot_info_start, boot_info_end)
        &&& image_apart(sections, boot_info_start, boot_info_end)
        &&& in_image(sections, boot_info_start, boot_info_end, self.table_base)
    }

    /// Loading a hierarchy in which exactly the pages of the kernel image
    /// are mapped, each to the frame with its own number, and unmapping the
    /// page of the old level-4 table there leaves a tree with the image at
    /// its own addresses but for that page.
    pub proof fn lemma_rebuild_finish<A: FrameAllocator>(
        self,
        left: MachineView,
        old_base: nat,
        sections: Seq<ElfSection>,
        boot_info_start: u64,
        boot_info_end: u64,
        allocator: &A,
        used: nat,
        left_over: nat,
    )
        requires
            self.is_tree(),
            is_identity_number(old_base),
            in_image(sections, boot_info_start, boot_info_end, old_base),
            self.maps_image(sections, boot_info_start, boot_info_end),
            forall|other: nat|
                is_page_number(other) && p4_index_of(other) != 511 && !in_image(
                    sections,
                    boot_info_start,
                    boot_info_end,
                    other,
                ) ==> (#[trigger] self.mapping(other)).is_none(),
            forall|other: nat|
                is_page_number(other) && p4_index_of(other) != 511 && !in_image(
                    sections,
                    boot_info_start,
                    boot_info_end,
                    other,
                ) ==> #[trigger] self.is_vacant(other),
            self.has_fresh_frames(allocator, used, left_over),
            forall|table: nat, i: nat|
                i < 512 && self.is_tree_table(table) ==> #[trigger] left.entry(table, i)
                    == self.entry(table, i),
        ensures
            ({
                let switched = left.based_at(self.root());
                let done = switched.unmap(old_base);
                &&& switched.recursive()
                &&& switched.p1_table(old_base).is_some()
                &&& word_present(
                    switched.entry(switched.p1_table(old_base).unwrap(), p1_index_of(old_base)),
                )
                &&& done.is_tree()
                &&& done.table_base == self.root()
                &&& done.root() == self.root()
                &&& done.has_fresh_frames(allocator, used, left_over)
                &&& forall|page: nat|
                    is_page_number(page) && p4_index_of(page) != 511 && !in_image(
                        sections,
                        boot_info_start,
                        boot_info_end,
                        page,
                    ) ==> #[trigger] done.is_vacant(page)
                &&& forall|page: nat|
                    is_page_number(page) && p4_index_of(page) != 511 ==> #[trigger] done.mapping(page)
                        == (if in_image(sections, boot_info_start, boot_info_end, page) && page
                        != old_base {
                        Some(page)
                    } else {
                        None
                    })
                &&& forall|page: nat|
                    is_page_number(page) && p4_index_of(page) != 511 && page != old_base
                        ==> #[trigger] done.has_image_flags(
                        sections,
                        boot_info_start,
                        boot_info_end,
                        page,
                    )
            }),
    {
        let switched = left.based_at(self.root());
        let done = switched.unmap(old_base);
        self.lemma_switch_in_tree(left);
        self.lemma_image_page_mapped(sections, boot_info_start, boot_info_end, old_base);
        assert(switched.is_leaf_mapped(old_base));
        switched.lemma_tree_is_recursive();
        switched.lemma_unmap_keeps_tables(old_base);
        assert forall|other: nat|
            is_page_number(other) && p4_index_of(other) != 511 && other
                != old_base implies #[trigger] done.has_image_flags(
            sections,
            boot_info_start,
            boot_info_end,
            other,
        ) by {
            self.lemma_image_page_flags(sections, boot_info_start, boot_info_end, other);
            if self.is_leaf_mapped(other) {
                assert(switched.is_leaf_mapped(other));
                assert(switched.leaf(other) == self.leaf(other));
                assert(switched.keeps_leaf(done, other));
            }
            self.lemma_image_flags_kept(
                done,
                sections,
                boot_info_start,
                boot_info_end,
                other,
            );
        }
        assert forall|other: nat|
            is_page_number(other) && p4_index_of(other) != 511 && !in_image(
                sections,
                boot_info_start,
                boot_info_end,
                other,
            ) implies #[trigger] done.is_vacant(other) by {
            assert(self.is_vacant(other));
            assert(switched.is_vacant(other));
        }
        assert(done.has_fresh_frames(allocator, used, left_over)) by {
            reveal(MachineView::has_fresh_frames);
            assert forall|k: nat| used <= k < used + left_over implies (
            #[trigger] allocator.upcoming(k)).is_some() && allocator.upcoming(k).unwrap()@
                < ENTRY_FRAME_LIMIT && !done.is_table(allocator.upcoming(k).unwrap()@) by {
                let fresh = allocator.upcoming(k).unwrap()@;
                assert(!self.is_table(fresh));
                if done.is_table(fresh) {
                    if fresh != done.table_base {
                        assert(done.is_tree_table(fresh));
                        assert(switched.is_tree_table(fresh));
                        assert(self.is_tree_table(fresh));
                    } else {
                        self.lemma_root_is_table();
                    }
                }
            }
        }
        assert forall|other: nat|
            is_page_number(other) && p4_index_of(other) != 511 implies #[trigger] done.mapping(
            other,
        ) == (if in_image(sections, boot_info_start, boot_info_end, other) && other != old_base {
            Some(other)
        } else {
            None
        }) by {
            if other != old_base {
                assert(done.mapping(other) == switched.mapping(other));
                assert(switched.mapping(other) == self.mapping(other));
                if in_image(sections, boot_info_start, boot_info_end, other) {
                    self.lemma_image_page_mapped(
                        sections,
                        boot_info_start,
                        boot_info_end,
                        other,
                    );
                }
            }
        }
    }

    /// The kernel can be given a hierarchy of its own from the machine as the
    /// boot code leaves it, and the address space that this gives is the
    /// kernel image at its own addresses without the page of the old
    /// level-4 table: a page of the image other than that one translates to
    /// the frame with its own number, by an entry with the flags of its
    /// part of the image, and no other page outside the recursive mapping is
    /// mapped. The frames of the allocator that are left are fresh for the
    /// new hierarchy.
    pub proof fn lemma_rebuild<A: FrameAllocator>(
        self,
        sections: Seq<ElfSection>,
        boot_info_start: u64,
        boot_info_end: u64,
        allocator: &A,
        count: nat,
    )
        requires
            self.can_rebuild(sections, boot_info_start, boot_info_end, allocator, count),
        ensures
            self.can_remap(sections, boot_info_start, boot_info_end, allocator),
            ({
                let steps = self.remap_steps(sections, boot_info_start, boot_info_end, allocator);
                &&& steps.done.is_tree()
                &&& steps.done.table_base == allocator.upcoming(3).unwrap()@
                &&& steps.done.root() == steps.done.table_base
                &&& 4 <= steps.used <= 4 + 3 * image_frames(
                    sections,
                    boot_info_start,
                    boot_info_end,
                )
                &&& steps.done.has_fresh_frames(allocator, steps.used, (count - steps.used) as nat)
                &&& forall|page: nat|
                    is_page_number(page) && p4_index_of(page) != 511 && !in_image(
                        sections,
                        boot_info_start,
                        boot_info_end,
                        page,
                    ) ==> #[trigger] steps.done.is_vacant(page)
                &&& forall|page: nat|
                    is_page_number(page) && p4_index_of(page) != 511 ==> #[trigger] steps.done.mapping(
                        page,
                    ) == (if in_image(sections, boot_info_start, boot_info_end, page) && page
                        != self.table_base {
                        Some(page)
                    } else {
                        None
                    })
                &&& forall|page: nat|
                    is_page_number(page) && p4_index_of(page) != 511 && page != self.table_base
                        ==> #[trigger] steps.done.has_image_flags(
                        sections,
                        boot_info_start,
                        boot_info_end,
                        page,
                    )
            }),
    {
        let page = REMAP_PAGE as nat;
        let steps = self.remap_steps(sections, boot_info_start, boot_info_end, allocator);
        self.lemma_rebuild_enter(allocator, count);
        let loaded = steps.formatted.with_base_at(page);
        self.lemma_rebuild_edit(
            loaded,
            steps.entered,
            sections,
            boot_info_start,
            boot_info_end,
            allocator,
            count,
        );
        loaded.lemma_leave_in_tree(steps.edited, page);
        steps.edited.lemma_rebuild_finish(
            steps.left,
            self.table_base,
            sections,
            boot_info_start,
            boot_info_end,
            allocator,
            steps.used,
            (count - steps.used) as nat,
        );
        assert(steps.switched == steps.left.based_at(steps.edited.root()));
    }
}

} // verus!
