//! The table hierarchy as a tree: when mapping a page can go through, and
//! what it leaves alone.

use vstd::prelude::*;
use crate::memory::{Frame, FrameAllocator};
use crate::memory::paging::entry::{
    lemma_make_word, lemma_word_frame_bound, make_word, word_flags, word_huge, word_present,
    PageEntry, PageEntryFlags, ALL_FLAGS, ENTRY_FRAME_LIMIT, HUGE_PAGE, PRESENT, WRITABLE,
};
use crate::memory::paging::machine::{Machine, MachineView, TlbFlush};
use crate::memory::paging::mapper::{p1_address, p2_address, p3_address, Mapper};
use crate::memory::paging::table::{lemma_p4_address, P4_ADDRESS};
use crate::memory::paging::{
    is_page_number, p1_index_of, p2_index_of, p3_index_of, p4_index_of, Page,
};

verus! {

/// Whether `depth` and the indices name a table below the level-4 table:
/// `depth` tables lie between the level-4 table and the one that is meant,
/// that one included, and the indices are those of the entries that lead
/// there. The last entry of the level-4 table, which carries the recursive
/// mapping, leads to no table of the tree. Indices that are not used are 0.
pub open spec fn is_path(depth: nat, a: nat, b: nat, c: nat) -> bool {
    &&& depth <= 3
    &&& a < 512 && b < 512 && c < 512
    &&& depth >= 1 ==> a != 511
    &&& depth < 1 ==> a == 0
    &&& depth < 2 ==> b == 0
    &&& depth < 3 ==> c == 0
}

impl MachineView {
    /// The table at a path: the level-4 table that the recursive mapping
    /// exposes for depth 0, and for each further step the table that the
    /// entry with the next index leads to.
    pub open spec fn table(self, depth: nat, a: nat, b: nat, c: nat) -> Option<nat> {
        if depth == 0 {
            Some(self.root())
        } else {
            match self.next_table(self.root(), a) {
                None => None,
                Some(p3) => if depth == 1 {
                    Some(p3)
                } else {
                    match self.next_table(p3, b) {
                        None => None,
                        Some(p2) => if depth == 2 {
                            Some(p2)
                        } else {
                            self.next_table(p2, c)
                        },
                    }
                },
            }
        }
    }

    /// Whether `frame` holds the loaded level-4 table or a table of the tree.
    pub open spec fn is_table(self, frame: nat) -> bool {
        frame == self.table_base || exists|depth: nat, a: nat, b: nat, c: nat|
            is_path(depth, a, b, c) && #[trigger] self.table(depth, a, b, c) == Some(frame)
    }

    /// Whether the hierarchy is a tree: the recursive mapping is in place, no
    /// frame holds the table of two paths, and the loaded level-4 table, if
    /// it is another than the root, is no table of the tree.
    #[verifier::opaque]
    pub open spec fn is_tree(self) -> bool {
        &&& self.recursive()
        &&& forall|d1: nat, a1: nat, b1: nat, c1: nat, d2: nat, a2: nat, b2: nat, c2: nat|
            is_path(d1, a1, b1, c1) && is_path(d2, a2, b2, c2) && (#[trigger] self.table(
                d1,
                a1,
                b1,
                c1,
            )).is_some() && self.table(d1, a1, b1, c1) == #[trigger] self.table(d2, a2, b2, c2)
                ==> d1 == d2 && a1 == a2 && b1 == b2 && c1 == c2
        &&& forall|depth: nat, a: nat, b: nat, c: nat|
            is_path(depth, a, b, c) && depth >= 1 ==> #[trigger] self.table(depth, a, b, c)
                != Some(self.table_base)
    }
}

/// Whether the second path leads through the table of the first and on.
pub open spec fn is_below(
    depth: nat,
    a: nat,
    b: nat,
    c: nat,
    deeper: nat,
    a2: nat,
    b2: nat,
    c2: nat,
) -> bool {
    &&& depth < deeper
    &&& depth >= 1 ==> a == a2
    &&& depth >= 2 ==> b == b2
}

/// The path one step below a path, through the entry with index `index`.
pub open spec fn child_path(depth: nat, a: nat, b: nat, c: nat, index: nat) -> (nat, nat, nat, nat) {
    if depth == 0 {
        (1, index, 0, 0)
    } else if depth == 1 {
        (2, a, index, 0)
    } else {
        (3, a, b, index)
    }
}

/// Pages at canonical addresses that have the same four indices are one page.
pub proof fn lemma_page_by_indices(p: u64, q: u64)
    requires
        is_page_number(p as nat),
        is_page_number(q as nat),
        p4_index_of(p as nat) == p4_index_of(q as nat),
        p3_index_of(p as nat) == p3_index_of(q as nat),
        p2_index_of(p as nat) == p2_index_of(q as nat),
        p1_index_of(p as nat) == p1_index_of(q as nat),
    ensures
        p == q,
{
    assert(p == q) by (bit_vector)
        requires
            p < 0x8_0000_0000 || (0xf_fff8_0000_0000 <= p && p < 0x10_0000_0000_0000),
            q < 0x8_0000_0000 || (0xf_fff8_0000_0000 <= q && q < 0x10_0000_0000_0000),
            (p / 0x800_0000) % 512 == (q / 0x800_0000) % 512,
            (p / 0x4_0000) % 512 == (q / 0x4_0000) % 512,
            (p / 512) % 512 == (q / 512) % 512,
            p % 512 == q % 512,
    ;
}

impl MachineView {
    /// Whether `after` is this machine with a new, empty table `fresh` behind
    /// entry `index` of table `table`, whatever else lay in `fresh` before.
    pub open spec fn is_linked(self, after: MachineView, table: nat, index: nat, fresh: nat) -> bool {
        &&& after.table_base == self.table_base
        &&& after.next_table(table, index) == Some(fresh)
        &&& forall|frame: nat, i: nat|
            i < 512 && frame != fresh && !(frame == table && i == index) ==> #[trigger] after.entry(
                frame,
                i,
            ) == self.entry(frame, i)
        &&& forall|i: nat| i < 512 ==> #[trigger] after.entry(fresh, i) == 0
    }

    /// A new table is one: the machine with the entry written and the frame
    /// cleared is the machine with the table linked.
    pub proof fn lemma_new_table_is_linked(self, table: nat, index: nat, fresh: nat)
        requires
            index < 512,
            fresh < ENTRY_FRAME_LIMIT,
            table != fresh,
        ensures
            self.is_linked(self.with_new_table(table, index, fresh), table, index, fresh),
    {
        let word = make_word(fresh, PRESENT | WRITABLE);
        crate::memory::paging::entry::lemma_flag_bits();
        lemma_make_word(fresh as u64, PRESENT | WRITABLE);
        let linked = self.set_entry(table, index, word);
        linked.lemma_zero_table_entries(fresh);
        let after = linked.zero_table(fresh);
        assert(after.entry(table, index) == word);
        assert forall|frame: nat, i: nat|
            i < 512 && frame != fresh && !(frame == table && i == index) implies #[trigger] after.entry(
            frame,
            i,
        ) == self.entry(frame, i) by {
            assert(frame * 512 + i != table * 512 + index);
            assert(after.entry(frame, i) == linked.entry(frame, i));
        }
    }

    /// The root of a tree is a table, and so is the loaded level-4 table.
    pub proof fn lemma_root_is_table(self)
        ensures
            self.is_table(self.root()),
            self.is_table(self.table_base),
            self.table(0, 0, 0, 0) == Some(self.root()),
    {
        assert(is_path(0, 0, 0, 0));
        assert(self.table(0, 0, 0, 0) == Some(self.root()));
    }

    /// A table that is linked into a tree at an entry that led nowhere makes
    /// a tree again, with one table more and the same translations.
    pub proof fn lemma_link_table(
        self,
        after: MachineView,
        depth: nat,
        a: nat,
        b: nat,
        c: nat,
        index: nat,
        fresh: nat,
    )
        requires
            self.is_tree(),
            is_path(depth, a, b, c),
            depth <= 2,
            index < 512,
            depth == 0 ==> index != 511,
            self.table(depth, a, b, c).is_some(),
            !word_present(self.entry(self.table(depth, a, b, c).unwrap(), index)),
            !self.is_table(fresh),
            self.is_linked(after, self.table(depth, a, b, c).unwrap(), index, fresh),
        ensures
            after.is_tree(),
            after.root() == self.root(),
            forall|d2: nat, a2: nat, b2: nat, c2: nat|
                is_path(d2, a2, b2, c2) ==> #[trigger] after.table(d2, a2, b2, c2) == (if (
                    d2,
                    a2,
                    b2,
                    c2,
                ) == child_path(depth, a, b, c, index) {
                    Some(fresh)
                } else if is_below(
                    child_path(depth, a, b, c, index).0,
                    child_path(depth, a, b, c, index).1,
                    child_path(depth, a, b, c, index).2,
                    child_path(depth, a, b, c, index).3,
                    d2,
                    a2,
                    b2,
                    c2,
                ) {
                    None
                } else {
                    self.table(d2, a2, b2, c2)
                }),
            forall|frame: nat| #[trigger]
                after.is_table(frame) == (self.is_table(frame) || frame == fresh),
            forall|page: nat|
                p4_index_of(page) != 511 ==> #[trigger] after.mapping(page) == self.mapping(page),
            forall|page: nat|
                p4_index_of(page) != 511 && #[trigger] self.is_vacant(page) ==> after.is_vacant(
                    page,
                ),
            forall|page: nat|
                p4_index_of(page) != 511 && #[trigger] self.is_leaf_mapped(page)
                    ==> self.keeps_leaf(after, page),
    {
        reveal(MachineView::is_tree);
        let table = self.table(depth, a, b, c).unwrap();
        let root = self.root();
        let child = child_path(depth, a, b, c, index);
        lemma_word_frame_bound(0);
        self.lemma_root_is_table();
        assert(table != fresh) by {
            assert(self.is_table(table));
        }
        // The recursive mapping stays.
        assert(after.entry(self.table_base, 511) == self.entry(self.table_base, 511)) by {
            if self.table_base == table {
                assert(self.table(depth, a, b, c) == Some(self.table_base));
            }
        }
        assert(after.root() == root);
        assert(after.entry(root, 511) == self.entry(root, 511)) by {
            if root == table {
                assert(self.table(0, 0, 0, 0) == self.table(depth, a, b, c));
            }
        }
        self.lemma_link_table_paths(after, depth, a, b, c, index, fresh);
        assert forall|frame: nat| #[trigger]
            after.is_table(frame) == (self.is_table(frame) || frame == fresh) by {
            if after.is_table(frame) && frame != after.table_base {
                let (d2, a2, b2, c2) = choose|d2: nat, a2: nat, b2: nat, c2: nat|
                    is_path(d2, a2, b2, c2) && #[trigger] after.table(d2, a2, b2, c2) == Some(frame);
                if frame != fresh {
                    assert(self.table(d2, a2, b2, c2) == Some(frame));
                }
            }
            if self.is_table(frame) && frame != self.table_base {
                let (d2, a2, b2, c2) = choose|d2: nat, a2: nat, b2: nat, c2: nat|
                    is_path(d2, a2, b2, c2) && #[trigger] self.table(d2, a2, b2, c2) == Some(frame);
                if (d2, a2, b2, c2) == child {
                    assert(self.table(child.0, child.1, child.2, child.3).is_none());
                }
                assert(after.table(d2, a2, b2, c2) == Some(frame));
            }
            if frame == fresh {
                assert(is_path(child.0, child.1, child.2, child.3));
                assert(after.table(child.0, child.1, child.2, child.3) == Some(fresh));
            }
        }
        assert forall|d1: nat, a1: nat, b1: nat, c1: nat, d2: nat, a2: nat, b2: nat, c2: nat|
            is_path(d1, a1, b1, c1) && is_path(d2, a2, b2, c2) && (#[trigger] after.table(
                d1,
                a1,
                b1,
                c1,
            )).is_some() && after.table(d1, a1, b1, c1) == #[trigger] after.table(
                d2,
                a2,
                b2,
                c2,
            ) implies d1 == d2 && a1 == a2 && b1 == b2 && c1 == c2 by {
            let first = after.table(d1, a1, b1, c1).unwrap();
            if first == fresh {
                if (d1, a1, b1, c1) != child {
                    assert(self.table(d1, a1, b1, c1) == Some(fresh));
                    assert(self.is_table(fresh));
                }
                if (d2, a2, b2, c2) != child {
                    assert(self.table(d2, a2, b2, c2) == Some(fresh));
                    assert(self.is_table(fresh));
                }
            } else {
                assert(self.table(d1, a1, b1, c1) == Some(first));
                assert(self.table(d2, a2, b2, c2) == Some(first));
            }
        }
        assert forall|d2: nat, a2: nat, b2: nat, c2: nat|
            is_path(d2, a2, b2, c2) && d2 >= 1 implies #[trigger] after.table(d2, a2, b2, c2)
            != Some(after.table_base) by {
            if after.table(d2, a2, b2, c2) == Some(after.table_base) {
                assert(self.table(d2, a2, b2, c2) == Some(self.table_base));
            }
        }
        assert forall|page: nat| p4_index_of(page) != 511 implies #[trigger] after.mapping(page)
            == self.mapping(page) by {
            self.lemma_link_table_page(after, depth, a, b, c, index, fresh, page);
        }
        assert forall|page: nat|
            p4_index_of(page) != 511 && #[trigger] self.is_vacant(page) implies after.is_vacant(
            page,
        ) by {
            self.lemma_link_table_page(after, depth, a, b, c, index, fresh, page);
        }
        assert forall|page: nat|
            p4_index_of(page) != 511 && #[trigger] self.is_leaf_mapped(page) implies self.keeps_leaf(
            after,
            page,
        ) by {
            self.lemma_link_table_page(after, depth, a, b, c, index, fresh, page);
        }
    }

    /// What the tables of the paths are after a table was linked.
    proof fn lemma_link_table_paths(
        self,
        after: MachineView,
        depth: nat,
        a: nat,
        b: nat,
        c: nat,
        index: nat,
        fresh: nat,
    )
        requires
            self.is_tree(),
            is_path(depth, a, b, c),
            depth <= 2,
            index < 512,
            depth == 0 ==> index != 511,
            self.table(depth, a, b, c).is_some(),
            !word_present(self.entry(self.table(depth, a, b, c).unwrap(), index)),
            !self.is_table(fresh),
            self.is_linked(after, self.table(depth, a, b, c).unwrap(), index, fresh),
            after.root() == self.root(),
        ensures
            forall|d2: nat, a2: nat, b2: nat, c2: nat|
                is_path(d2, a2, b2, c2) ==> #[trigger] after.table(d2, a2, b2, c2) == (if (
                    d2,
                    a2,
                    b2,
                    c2,
                ) == child_path(depth, a, b, c, index) {
                    Some(fresh)
                } else if is_below(
                    child_path(depth, a, b, c, index).0,
                    child_path(depth, a, b, c, index).1,
                    child_path(depth, a, b, c, index).2,
                    child_path(depth, a, b, c, index).3,
                    d2,
                    a2,
                    b2,
                    c2,
                ) {
                    None
                } else {
                    self.table(d2, a2, b2, c2)
                }),
    {
        reveal(MachineView::is_tree);
        let table = self.table(depth, a, b, c).unwrap();
        let root = self.root();
        let child = child_path(depth, a, b, c, index);
        lemma_word_frame_bound(0);
        self.lemma_root_is_table();
        assert forall|d2: nat, a2: nat, b2: nat, c2: nat|
            is_path(d2, a2, b2, c2) implies #[trigger] after.table(d2, a2, b2, c2) == (if (
            d2,
            a2,
            b2,
            c2,
        ) == child {
            Some(fresh)
        } else if is_below(child.0, child.1, child.2, child.3, d2, a2, b2, c2) {
            None
        } else {
            self.table(d2, a2, b2, c2)
        }) by {
            if d2 >= 1 {
                self.lemma_step(after, table, index, fresh, 0, 0, 0, 0, a2);
                let p3 = self.table(1, a2, 0, 0);
                if d2 >= 2 && after.table(1, a2, 0, 0).is_some() {
                    if after.table(1, a2, 0, 0) == Some(fresh) {
                        assert(after.next_table(fresh, b2).is_none());
                    } else {
                        assert(p3 == after.table(1, a2, 0, 0));
                        self.lemma_step(after, table, index, fresh, 1, a2, 0, 0, b2);
                        let p2 = self.table(2, a2, b2, 0);
                        if d2 >= 3 && after.table(2, a2, b2, 0).is_some() {
                            if after.table(2, a2, b2, 0) == Some(fresh) {
                                assert(after.next_table(fresh, c2).is_none());
                            } else {
                                assert(p2 == after.table(2, a2, b2, 0));
                                self.lemma_step(after, table, index, fresh, 2, a2, b2, 0, c2);
                            }
                        }
                    }
                }
            }
        }
    }

    /// One step down from a table of the old tree: the entry leads where
    /// it led, but for the entry that the new table was linked at.
    proof fn lemma_step(
        self,
        after: MachineView,
        table: nat,
        index: nat,
        fresh: nat,
        depth: nat,
        a: nat,
        b: nat,
        c: nat,
        i: nat,
    )
        requires
            self.is_tree(),
            is_path(depth, a, b, c),
            i < 512,
            self.table(depth, a, b, c).is_some(),
            !self.is_table(fresh),
            !word_present(self.entry(table, index)),
            self.is_linked(after, table, index, fresh),
        ensures
            after.entry(self.table(depth, a, b, c).unwrap(), i) == (if self.table(depth, a, b, c)
                == Some(table) && i == index {
                after.entry(table, index)
            } else {
                self.entry(self.table(depth, a, b, c).unwrap(), i)
            }),
            after.next_table(self.table(depth, a, b, c).unwrap(), i) == (if self.table(
                depth,
                a,
                b,
                c,
            ) == Some(table) && i == index {
                Some(fresh)
            } else {
                self.next_table(self.table(depth, a, b, c).unwrap(), i)
            }),
    {
        let here = self.table(depth, a, b, c).unwrap();
        assert(self.is_table(here));
    }

    /// A page translates after a table was linked as it did before.
    proof fn lemma_link_table_page(
        self,
        after: MachineView,
        depth: nat,
        a: nat,
        b: nat,
        c: nat,
        index: nat,
        fresh: nat,
        page: nat,
    )
        requires
            self.is_tree(),
            is_path(depth, a, b, c),
            depth <= 2,
            index < 512,
            depth == 0 ==> index != 511,
            self.table(depth, a, b, c).is_some(),
            !word_present(self.entry(self.table(depth, a, b, c).unwrap(), index)),
            !self.is_table(fresh),
            self.is_linked(after, self.table(depth, a, b, c).unwrap(), index, fresh),
            after.root() == self.root(),
            p4_index_of(page) != 511,
        ensures
            after.mapping(page) == self.mapping(page),
            self.is_vacant(page) ==> after.is_vacant(page),
            self.is_leaf_mapped(page) ==> self.keeps_leaf(after, page),
    {
        reveal(MachineView::is_tree);
        reveal(MachineView::is_vacant);
        let table = self.table(depth, a, b, c).unwrap();
        let i4 = p4_index_of(page);
        let i3 = p3_index_of(page);
        let i2 = p2_index_of(page);
        let i1 = p1_index_of(page);
        lemma_word_frame_bound(0);
        crate::memory::paging::entry::lemma_flag_bits();
        self.lemma_root_is_table();
        self.lemma_step(after, table, index, fresh, 0, 0, 0, 0, i4);
        assert(is_path(1, i4, 0, 0));
        assert(is_path(2, i4, i3, 0));
        assert(is_path(3, i4, i3, i2));
        if self.table(1, i4, 0, 0).is_some() {
            self.lemma_step(after, table, index, fresh, 1, i4, 0, 0, i3);
            if self.table(2, i4, i3, 0).is_some() {
                self.lemma_step(after, table, index, fresh, 2, i4, i3, 0, i2);
                if self.table(3, i4, i3, i2).is_some() {
                    self.lemma_step(after, table, index, fresh, 3, i4, i3, i2, i1);
                    assert(self.table(3, i4, i3, i2) != Some(table)) by {
                        if self.table(3, i4, i3, i2) == Some(table) {
                            assert(self.table(depth, a, b, c) == self.table(3, i4, i3, i2));
                        }
                    }
                }
            }
        }
    }
}

impl MachineView {
    /// The tables on the way to a page are the tables at the paths that the
    /// page's indices give.
    pub proof fn lemma_tables_of_page(self, page: nat)
        requires
            p4_index_of(page) != 511,
        ensures
            is_path(1, p4_index_of(page), 0, 0),
            is_path(2, p4_index_of(page), p3_index_of(page), 0),
            is_path(3, p4_index_of(page), p3_index_of(page), p2_index_of(page)),
            self.p3_table(page) == self.table(1, p4_index_of(page), 0, 0),
            self.p2_table(page) == self.table(2, p4_index_of(page), p3_index_of(page), 0),
            self.p1_table(page) == self.table(
                3,
                p4_index_of(page),
                p3_index_of(page),
                p2_index_of(page),
            ),
    {
    }

    /// A write to the entry of a page in its level-1 table leaves the tree
    /// and the translation of every other page as they were; the page
    /// translates to what the new entry points to.
    pub proof fn lemma_write_leaf(self, page: nat, word: u64)
        requires
            self.is_tree(),
            is_page_number(page),
            p4_index_of(page) != 511,
            self.p1_table(page).is_some(),
        ensures
            ({
                let after = self.set_entry(self.p1_table(page).unwrap(), p1_index_of(page), word);
                &&& after.is_tree()
                &&& after.root() == self.root()
                &&& forall|depth: nat, a: nat, b: nat, c: nat|
                    is_path(depth, a, b, c) ==> #[trigger] after.table(depth, a, b, c)
                        == self.table(depth, a, b, c)
                &&& forall|frame: nat| #[trigger] after.is_table(frame) == self.is_table(frame)
                &&& after.mapping(page) == crate::memory::paging::entry::word_pointed_frame(word)
                &&& forall|other: nat|
                    is_page_number(other) && p4_index_of(other) != 511 && other != page
                        ==> #[trigger] after.mapping(other) == self.mapping(other)
                &&& forall|other: nat|
                    is_page_number(other) && p4_index_of(other) != 511 && other != page
                        && #[trigger] self.is_vacant(other) ==> after.is_vacant(other)
                &&& forall|other: nat|
                    is_page_number(other) && p4_index_of(other) != 511 && other != page
                        && #[trigger] self.is_leaf_mapped(other) ==> self.keeps_leaf(after, other)
                &&& after.p1_table(page) == self.p1_table(page)
                &&& after.entry(self.p1_table(page).unwrap(), p1_index_of(page)) == word
            }),
    {
        let p1 = self.p1_table(page).unwrap();
        let after = self.set_entry(p1, p1_index_of(page), word);
        self.lemma_write_leaf_tables(page, word);
        self.lemma_tables_of_page(page);
        after.lemma_tables_of_page(page);
        assert forall|other: nat|
            is_page_number(other) && p4_index_of(other) != 511 && other != page
                && #[trigger] self.is_leaf_mapped(other) implies self.keeps_leaf(after, other) by {
            self.lemma_write_leaf_other(page, word, other);
        }
        self.lemma_same_tables(after);
        self.lemma_write_leaf_page(page, word);
        assert forall|other: nat|
            is_page_number(other) && p4_index_of(other) != 511 && other != page implies (
        #[trigger] after.mapping(other) == self.mapping(other)) && (self.is_vacant(other)
            ==> after.is_vacant(other)) by {
            self.lemma_write_leaf_other(page, word, other);
        }
        assert forall|other: nat|
            is_page_number(other) && p4_index_of(other) != 511 && other != page
                && #[trigger] self.is_vacant(other) implies after.is_vacant(other) by {
            self.lemma_write_leaf_other(page, word, other);
        }
    }

    /// A write to an entry of a level-1 table leaves every table where it is.
    proof fn lemma_write_leaf_tables(self, page: nat, word: u64)
        requires
            self.is_tree(),
            p4_index_of(page) != 511,
            self.p1_table(page).is_some(),
        ensures
            ({
                let after = self.set_entry(self.p1_table(page).unwrap(), p1_index_of(page), word);
                &&& after.table_base == self.table_base
                &&& after.root() == self.root()
                &&& after.recursive()
                &&& forall|depth: nat, a: nat, b: nat, c: nat|
                    is_path(depth, a, b, c) ==> #[trigger] after.table(depth, a, b, c)
                        == self.table(depth, a, b, c)
            }),
    {
        reveal(MachineView::is_tree);
        let p1 = self.p1_table(page).unwrap();
        let after = self.set_entry(p1, p1_index_of(page), word);
        self.lemma_tables_of_page(page);
        self.lemma_root_is_table();
        let (i4, i3, i2) = (p4_index_of(page), p3_index_of(page), p2_index_of(page));
        assert(self.table(3, i4, i3, i2) == Some(p1));
        assert(p1 != self.table_base);
        assert(p1 != self.root()) by {
            if p1 == self.root() {
                assert(self.table(0, 0, 0, 0) == self.table(3, i4, i3, i2));
            }
        }
        assert(after.entry(self.table_base, 511) == self.entry(self.table_base, 511));
        assert(after.entry(self.root(), 511) == self.entry(self.root(), 511));
        assert forall|depth: nat, a: nat, b: nat, c: nat|
            is_path(depth, a, b, c) implies #[trigger] after.table(depth, a, b, c) == self.table(
            depth,
            a,
            b,
            c,
        ) by {
            self.lemma_leaf_step(page, word, 0, 0, 0, 0, a);
            if depth >= 2 && self.table(1, a, 0, 0).is_some() {
                self.lemma_leaf_step(page, word, 1, a, 0, 0, b);
                if depth >= 3 && self.table(2, a, b, 0).is_some() {
                    self.lemma_leaf_step(page, word, 2, a, b, 0, c);
                }
            }
        }
    }

    /// A machine with the tables of a tree at the same paths, the same
    /// loaded table and the recursive mapping in place is a tree with the
    /// same tables.
    pub proof fn lemma_same_tables(self, after: MachineView)
        requires
            self.is_tree(),
            after.table_base == self.table_base,
            after.recursive(),
            forall|depth: nat, a: nat, b: nat, c: nat|
                is_path(depth, a, b, c) ==> #[trigger] after.table(depth, a, b, c) == self.table(
                    depth,
                    a,
                    b,
                    c,
                ),
        ensures
            after.is_tree(),
            forall|frame: nat| #[trigger] after.is_table(frame) == self.is_table(frame),
    {
        reveal(MachineView::is_tree);
        assert forall|frame: nat| #[trigger] after.is_table(frame) == self.is_table(frame) by {
            if after.is_table(frame) && frame != after.table_base {
                let (d2, a2, b2, c2) = choose|d2: nat, a2: nat, b2: nat, c2: nat|
                    is_path(d2, a2, b2, c2) && #[trigger] after.table(d2, a2, b2, c2) == Some(frame);
                assert(self.table(d2, a2, b2, c2) == Some(frame));
            }
            if self.is_table(frame) && frame != self.table_base {
                let (d2, a2, b2, c2) = choose|d2: nat, a2: nat, b2: nat, c2: nat|
                    is_path(d2, a2, b2, c2) && #[trigger] self.table(d2, a2, b2, c2) == Some(frame);
                assert(after.table(d2, a2, b2, c2) == Some(frame));
            }
        }
        assert forall|d1: nat, a1: nat, b1: nat, c1: nat, d2: nat, a2: nat, b2: nat, c2: nat|
            is_path(d1, a1, b1, c1) && is_path(d2, a2, b2, c2) && (#[trigger] after.table(
                d1,
                a1,
                b1,
                c1,
            )).is_some() && after.table(d1, a1, b1, c1) == #[trigger] after.table(
                d2,
                a2,
                b2,
                c2,
            ) implies d1 == d2 && a1 == a2 && b1 == b2 && c1 == c2 by {
            assert(self.table(d1, a1, b1, c1) == self.table(d2, a2, b2, c2));
        }
        assert forall|depth: nat, a: nat, b: nat, c: nat|
            is_path(depth, a, b, c) && depth >= 1 implies #[trigger] after.table(depth, a, b, c)
            != Some(after.table_base) by {
            assert(self.table(depth, a, b, c) != Some(self.table_base));
        }
    }

    /// A page translates to what its entry points to.
    proof fn lemma_write_leaf_page(self, page: nat, word: u64)
        requires
            self.is_tree(),
            p4_index_of(page) != 511,
            self.p1_table(page).is_some(),
        ensures
            self.set_entry(self.p1_table(page).unwrap(), p1_index_of(page), word).mapping(page)
                == crate::memory::paging::entry::word_pointed_frame(word),
    {
        let (i4, i3, i2) = (p4_index_of(page), p3_index_of(page), p2_index_of(page));
        self.lemma_write_leaf_tables(page, word);
        self.lemma_tables_of_page(page);
        self.lemma_leaf_step(page, word, 0, 0, 0, 0, i4);
        self.lemma_leaf_step(page, word, 1, i4, 0, 0, i3);
        self.lemma_leaf_step(page, word, 2, i4, i3, 0, i2);
    }

    /// One step down from a table above the lowest level, after a write to
    /// an entry of a level-1 table: the entry is as it was.
    proof fn lemma_leaf_step(
        self,
        page: nat,
        word: u64,
        depth: nat,
        a: nat,
        b: nat,
        c: nat,
        i: nat,
    )
        requires
            self.is_tree(),
            p4_index_of(page) != 511,
            self.p1_table(page).is_some(),
            is_path(depth, a, b, c),
            depth <= 2,
            i < 512,
            self.table(depth, a, b, c).is_some(),
        ensures
            self.set_entry(self.p1_table(page).unwrap(), p1_index_of(page), word).entry(
                self.table(depth, a, b, c).unwrap(),
                i,
            ) == self.entry(self.table(depth, a, b, c).unwrap(), i),
    {
        reveal(MachineView::is_tree);
        self.lemma_tables_of_page(page);
        let p1 = self.p1_table(page).unwrap();
        let here = self.table(depth, a, b, c).unwrap();
        assert(here != p1) by {
            if here == p1 {
                assert(self.table(depth, a, b, c) == self.table(
                    3,
                    p4_index_of(page),
                    p3_index_of(page),
                    p2_index_of(page),
                ));
            }
        }
        assert(here * 512 + i != p1 * 512 + p1_index_of(page));
    }

    /// Another page than the one whose entry was written translates as it
    /// did, and is free to be mapped if it was.
    proof fn lemma_write_leaf_other(self, page: nat, word: u64, other: nat)
        requires
            self.is_tree(),
            is_page_number(page),
            p4_index_of(page) != 511,
            self.p1_table(page).is_some(),
            is_page_number(other),
            p4_index_of(other) != 511,
            other != page,
        ensures
            self.set_entry(self.p1_table(page).unwrap(), p1_index_of(page), word).mapping(other)
                == self.mapping(other),
            self.is_vacant(other) ==> self.set_entry(
                self.p1_table(page).unwrap(),
                p1_index_of(page),
                word,
            ).is_vacant(other),
            self.is_leaf_mapped(other) ==> self.keeps_leaf(
                self.set_entry(self.p1_table(page).unwrap(), p1_index_of(page), word),
                other,
            ),
    {
        reveal(MachineView::is_tree);
        reveal(MachineView::is_vacant);
        let p1 = self.p1_table(page).unwrap();
        let after = self.set_entry(p1, p1_index_of(page), word);
        let (i4, i3, i2, i1) = (
            p4_index_of(other),
            p3_index_of(other),
            p2_index_of(other),
            p1_index_of(other),
        );
        self.lemma_tables_of_page(page);
        self.lemma_tables_of_page(other);
        self.lemma_root_is_table();
        assert(after.root() == self.root()) by {
            assert(p1 != self.table_base);
        }
        self.lemma_leaf_step(page, word, 0, 0, 0, 0, i4);
        if self.table(1, i4, 0, 0).is_some() {
            self.lemma_leaf_step(page, word, 1, i4, 0, 0, i3);
            if self.table(2, i4, i3, 0).is_some() {
                self.lemma_leaf_step(page, word, 2, i4, i3, 0, i2);
                if self.table(3, i4, i3, i2).is_some() {
                    let here = self.table(3, i4, i3, i2).unwrap();
                    if here == p1 {
                        assert(self.table(3, i4, i3, i2) == self.table(
                            3,
                            p4_index_of(page),
                            p3_index_of(page),
                            p2_index_of(page),
                        ));
                        assert(i1 != p1_index_of(page)) by {
                            if i1 == p1_index_of(page) {
                                lemma_page_by_indices(page as u64, other as u64);
                            }
                        }
                    }
                    assert(here * 512 + i1 != p1 * 512 + p1_index_of(page));
                }
            }
        }
    }

    /// The word of the entry for `page` in its level-1 table, zero where the
    /// page has no such table.
    pub open spec fn leaf(self, page: nat) -> u64 {
        match self.p1_table(page) {
            Some(p1) => self.entry(p1, p1_index_of(page)),
            None => 0,
        }
    }

    /// Whether `after` maps `page` by a present entry of a level-1 table
    /// that holds the word which is the page's here.
    pub open spec fn keeps_leaf(self, after: MachineView, page: nat) -> bool {
        after.is_leaf_mapped(page) && after.leaf(page) == self.leaf(page)
    }

    /// Whether `page` is mapped by a present entry of a level-1 table.
    pub open spec fn is_leaf_mapped(self, page: nat) -> bool {
        self.p1_table(page).is_some() && word_present(
            self.entry(self.p1_table(page).unwrap(), p1_index_of(page)),
        )
    }

    /// Whether nothing stands in the way of mapping `page`: where a table on
    /// the way is missing, the entry that would lead to it is no huge page,
    /// and where all tables are there, the page's entry is unused.
    #[verifier::opaque]
    pub open spec fn is_vacant(self, page: nat) -> bool {
        match self.p3_table(page) {
            None => !word_huge(self.entry(self.root(), p4_index_of(page))),
            Some(p3) => match self.next_table(p3, p3_index_of(page)) {
                None => !word_huge(self.entry(p3, p3_index_of(page))),
                Some(p2) => match self.next_table(p2, p2_index_of(page)) {
                    None => !word_huge(self.entry(p2, p2_index_of(page))),
                    Some(p1) => self.entry(p1, p1_index_of(page)) == 0,
                },
            },
        }
    }
}

impl MachineView {
    /// Whether the `count` frames that `allocator` hands out after `used`
    /// others can become tables: each is there, has an address that fits an
    /// entry, holds no table yet, and comes only once.
    #[verifier::opaque]
    pub open spec fn has_fresh_frames<A: FrameAllocator>(
        self,
        allocator: &A,
        used: nat,
        count: nat,
    ) -> bool {
        &&& forall|k: nat|
            used <= k < used + count ==> (#[trigger] allocator.upcoming(k)).is_some()
                && allocator.upcoming(k).unwrap()@ < ENTRY_FRAME_LIMIT && !self.is_table(
                allocator.upcoming(k).unwrap()@,
            )
        &&& forall|j: nat, k: nat|
            used <= j < k < used + count ==> (#[trigger] allocator.upcoming(j)).unwrap()@ != (
            #[trigger] allocator.upcoming(k)).unwrap()@
    }

    /// In a tree, making sure of a table goes through where the entry is no
    /// huge page and the next frame of the allocator is fresh; it leaves a
    /// tree with the same translations, and the new table, if there is one,
    /// is the only frame that becomes a table.
    pub proof fn lemma_grow_in_tree<A: FrameAllocator>(
        self,
        depth: nat,
        a: nat,
        b: nat,
        c: nat,
        address: u64,
        index: nat,
        allocator: &A,
        used: nat,
    )
        requires
            self.is_tree(),
            is_path(depth, a, b, c),
            depth <= 2,
            index < 512,
            depth == 0 ==> index != 511,
            crate::memory::paging::table::is_table_address(address, (4 - depth) as nat),
            self.table(depth, a, b, c).is_some(),
            self.table_frame(address) == self.table(depth, a, b, c),
            forall|frame: nat| self.on_table_path(address, frame) ==> self.is_table(frame),
            !word_huge(self.entry(self.table(depth, a, b, c).unwrap(), index)),
            self.next_table(self.table(depth, a, b, c).unwrap(), index).is_none() ==> {
                &&& allocator.upcoming(used).is_some()
                &&& allocator.upcoming(used).unwrap()@ < ENTRY_FRAME_LIMIT
                &&& !self.is_table(allocator.upcoming(used).unwrap()@)
            },
        ensures
            self.can_grow(address, index, allocator, used),
            ({
                let (after, taken) = self.grow(address, index, allocator, used);
                let table = self.table(depth, a, b, c).unwrap();
                let child = child_path(depth, a, b, c, index);
                let below = crate::memory::paging::table::child_address(address, index);
                &&& after.is_tree()
                &&& after.root() == self.root()
                &&& after.table_base == self.table_base
                &&& after.flushes == self.flushes
                &&& after.table(child.0, child.1, child.2, child.3).is_some()
                &&& after.table_frame(below) == after.table(child.0, child.1, child.2, child.3)
                &&& forall|frame: nat| after.on_table_path(below, frame) ==> after.is_table(frame)
                &&& self.next_table(table, index).is_some() ==> after == self && taken == used
                &&& self.next_table(table, index).is_none() ==> taken == used + 1
                    && self.is_linked(after, table, index, allocator.upcoming(used).unwrap()@)
                &&& forall|frame: nat| #[trigger]
                    after.is_table(frame) == (self.is_table(frame) || (taken != used && frame
                        == allocator.upcoming(used).unwrap()@))
                &&& forall|page: nat|
                    p4_index_of(page) != 511 ==> #[trigger] after.mapping(page) == self.mapping(
                        page,
                    )
                &&& forall|page: nat|
                    p4_index_of(page) != 511 && #[trigger] self.is_vacant(page)
                        ==> after.is_vacant(page)
                &&& forall|page: nat|
                    p4_index_of(page) != 511 && #[trigger] self.is_leaf_mapped(page)
                        ==> self.keeps_leaf(after, page)
            }),
    {
        reveal(MachineView::is_tree);
        let table = self.table(depth, a, b, c).unwrap();
        let child = child_path(depth, a, b, c, index);
        let below = crate::memory::paging::table::child_address(address, index);
        let (after, taken) = self.grow(address, index, allocator, used);
        lemma_word_frame_bound(0);
        if self.next_table(table, index).is_none() {
            let fresh = allocator.upcoming(used).unwrap()@;
            assert(self.is_table(table));
            assert(!self.on_table_path(address, fresh));
            self.lemma_new_table_is_linked(table, index, fresh);
            self.lemma_link_table(after, depth, a, b, c, index, fresh);
            assert(is_path(child.0, child.1, child.2, child.3));
            assert(after.table(child.0, child.1, child.2, child.3) == Some(fresh));
        } else {
            assert(after.table(child.0, child.1, child.2, child.3) == self.next_table(
                table,
                index,
            ));
        }
        assert(after.table(depth, a, b, c) == Some(table));
        if self.next_table(table, index).is_none() {
            self.lemma_linked_keeps_path(
                after,
                table,
                index,
                allocator.upcoming(used).unwrap()@,
                address,
            );
        }
        after.lemma_descend(address, (4 - depth) as nat, index);
        assert(after.next_table(table, index) == after.table(
            child.0,
            child.1,
            child.2,
            child.3,
        ));
        assert forall|frame: nat| after.on_table_path(below, frame) implies after.is_table(
            frame,
        ) by {
            if after.on_table_path(address, frame) {
                assert(self.on_table_path(address, frame));
            } else {
                assert(is_path(child.0, child.1, child.2, child.3));
                assert(after.table(child.0, child.1, child.2, child.3) == Some(frame));
            }
        }
    }

    /// Linking a new table leaves the way to a table that was there as it
    /// was, if the new table is none of the tables on that way.
    pub proof fn lemma_linked_keeps_path(
        self,
        after: MachineView,
        table: nat,
        index: nat,
        fresh: nat,
        address: u64,
    )
        requires
            index < 512,
            self.is_linked(after, table, index, fresh),
            self.next_table(table, index).is_none(),
            self.table_frame(address).is_some(),
            !self.on_table_path(address, fresh),
        ensures
            after.table_frame(address) == self.table_frame(address),
            forall|frame: nat|
                after.on_table_path(address, frame) == self.on_table_path(address, frame),
    {
        let page = address as nat / 4096;
        let base = self.table_base;
        let p3 = self.next_table(base, p4_index_of(page)).unwrap();
        let p2 = self.next_table(p3, p3_index_of(page)).unwrap();
        let p1 = self.next_table(p2, p2_index_of(page)).unwrap();
        assert(after.entry(base, p4_index_of(page)) == self.entry(base, p4_index_of(page)));
        assert(after.entry(p3, p3_index_of(page)) == self.entry(p3, p3_index_of(page)));
        assert(after.entry(p2, p2_index_of(page)) == self.entry(p2, p2_index_of(page)));
        assert(after.entry(p1, p1_index_of(page)) == self.entry(p1, p1_index_of(page)));
    }
}

impl MachineView {
    /// Whether `frame` holds a table of the tree, the root included.
    pub open spec fn is_tree_table(self, frame: nat) -> bool {
        exists|depth: nat, a: nat, b: nat, c: nat|
            is_path(depth, a, b, c) && #[trigger] self.table(depth, a, b, c) == Some(frame)
    }

    /// Whether `allocator` hands out `frame` after at least `used` and fewer
    /// than `taken` other frames.
    pub open spec fn is_supplied<A: FrameAllocator>(
        allocator: &A,
        used: nat,
        taken: nat,
        frame: nat,
    ) -> bool {
        exists|k: nat|
            used <= k < taken && (#[trigger] allocator.upcoming(k)).is_some()
                && allocator.upcoming(k).unwrap()@ == frame
    }

    /// Whether the step from this machine to `after` stays inside the tree:
    /// the tables of the tree stay tables, a table that is new is a frame
    /// that `allocator` hands out after at least `used` and fewer than
    /// `taken` others, and no word changes but in tables of the tree.
    #[verifier::opaque]
    pub open spec fn confined_to<A: FrameAllocator>(
        self,
        after: MachineView,
        allocator: &A,
        used: nat,
        taken: nat,
    ) -> bool {
        &&& forall|frame: nat| #[trigger]
            after.is_tree_table(frame) ==> self.is_tree_table(frame) || Self::is_supplied(
                allocator,
                used,
                taken,
                frame,
            )
        &&& forall|frame: nat| #[trigger] self.is_tree_table(frame) ==> after.is_tree_table(frame)
        &&& forall|frame: nat, i: nat|
            i < 512 && !after.is_tree_table(frame) ==> #[trigger] after.entry(frame, i)
                == self.entry(frame, i)
    }

    /// Two steps that stay inside the tree make one that does.
    pub proof fn lemma_confined_twice<A: FrameAllocator>(
        self,
        middle: MachineView,
        after: MachineView,
        allocator: &A,
        used: nat,
        between: nat,
        taken: nat,
    )
        requires
            used <= between <= taken,
            self.confined_to(middle, allocator, used, between),
            middle.confined_to(after, allocator, between, taken),
        ensures
            self.confined_to(after, allocator, used, taken),
    {
        reveal(MachineView::confined_to);
        assert forall|frame: nat| #[trigger] after.is_tree_table(frame) implies self.is_tree_table(
            frame,
        ) || Self::is_supplied(allocator, used, taken, frame) by {
            if !Self::is_supplied(allocator, between, taken, frame) {
                assert(middle.is_tree_table(frame));
            }
        }
        assert forall|frame: nat| #[trigger] self.is_tree_table(frame) implies after.is_tree_table(
            frame,
        ) by {
            assert(middle.is_tree_table(frame));
        }
        assert forall|frame: nat, i: nat|
            i < 512 && !after.is_tree_table(frame) implies #[trigger] after.entry(frame, i)
            == self.entry(frame, i) by {
            assert(after.entry(frame, i) == middle.entry(frame, i));
            if middle.is_tree_table(frame) {
                assert(after.is_tree_table(frame));
            }
            assert(middle.entry(frame, i) == self.entry(frame, i));
        }
    }

    /// A step that stays inside the tree with some frames of the allocator
    /// does so with more of them.
    pub proof fn lemma_confined_wider<A: FrameAllocator>(
        self,
        after: MachineView,
        allocator: &A,
        used: nat,
        taken: nat,
        from: nat,
        to: nat,
    )
        requires
            self.confined_to(after, allocator, used, taken),
            from <= used,
            taken <= to,
        ensures
            self.confined_to(after, allocator, from, to),
    {
        reveal(MachineView::confined_to);
        assert forall|frame: nat| #[trigger] after.is_tree_table(frame) implies self.is_tree_table(
            frame,
        ) || Self::is_supplied(allocator, from, to, frame) by {
            if Self::is_supplied(allocator, used, taken, frame) {
                let k = choose|k: nat|
                    used <= k < taken && (#[trigger] allocator.upcoming(k)).is_some()
                        && allocator.upcoming(k).unwrap()@ == frame;
                assert(from <= k < to);
            }
        }
    }

    /// In a tree, the tables are the loaded level-4 table and the tables of
    /// the tree, and the loaded table is one of the tree only as its root.
    pub proof fn lemma_tree_tables(self)
        requires
            self.is_tree(),
        ensures
            forall|frame: nat| #[trigger]
                self.is_table(frame) == (frame == self.table_base || self.is_tree_table(frame)),
            self.is_tree_table(self.root()),
            self.is_tree_table(self.table_base) == (self.table_base == self.root()),
    {
        reveal(MachineView::is_tree);
        self.lemma_root_is_table();
        if self.is_tree_table(self.table_base) {
            let (d, a, b, c) = choose|d: nat, a: nat, b: nat, c: nat|
                is_path(d, a, b, c) && #[trigger] self.table(d, a, b, c) == Some(
                    self.table_base,
                );
            assert(d == 0);
        }
    }

    /// Making sure of a table in a tree stays inside the tree.
    pub proof fn lemma_grow_confined<A: FrameAllocator>(
        self,
        depth: nat,
        a: nat,
        b: nat,
        c: nat,
        address: u64,
        index: nat,
        allocator: &A,
        used: nat,
    )
        requires
            self.is_tree(),
            is_path(depth, a, b, c),
            depth <= 2,
            index < 512,
            depth == 0 ==> index != 511,
            crate::memory::paging::table::is_table_address(address, (4 - depth) as nat),
            self.table(depth, a, b, c).is_some(),
            self.table_frame(address) == self.table(depth, a, b, c),
            forall|frame: nat| self.on_table_path(address, frame) ==> self.is_table(frame),
            !word_huge(self.entry(self.table(depth, a, b, c).unwrap(), index)),
            self.next_table(self.table(depth, a, b, c).unwrap(), index).is_none() ==> {
                &&& allocator.upcoming(used).is_some()
                &&& allocator.upcoming(used).unwrap()@ < ENTRY_FRAME_LIMIT
                &&& !self.is_table(allocator.upcoming(used).unwrap()@)
            },
        ensures
            self.confined_to(
                self.grow(address, index, allocator, used).0,
                allocator,
                used,
                self.grow(address, index, allocator, used).1,
            ),
    {
        reveal(MachineView::confined_to);
        let table = self.table(depth, a, b, c).unwrap();
        let (after, taken) = self.grow(address, index, allocator, used);
        self.lemma_grow_in_tree(depth, a, b, c, address, index, allocator, used);
        self.lemma_tree_tables();
        after.lemma_tree_tables();
        assert(self.is_tree_table(table));
        if taken != used {
            let fresh = allocator.upcoming(used).unwrap()@;
            assert(Self::is_supplied(allocator, used, taken, fresh));
            assert forall|frame: nat| #[trigger] after.is_tree_table(frame) implies (
            self.is_tree_table(frame) || Self::is_supplied(allocator, used, taken, frame)) by {
                assert(after.is_table(frame));
                assert(self.is_table(frame) || frame == fresh);
            }
            assert forall|frame: nat| #[trigger] self.is_tree_table(frame) implies (
            after.is_tree_table(frame)) by {
                assert(self.is_table(frame));
                assert(after.is_table(frame));
            }
            assert(after.is_tree_table(fresh)) by {
                assert(after.is_table(fresh));
                assert(fresh != self.table_base);
            }
            assert forall|frame: nat, i: nat|
                i < 512 && !after.is_tree_table(frame) implies #[trigger] after.entry(frame, i)
                == self.entry(frame, i) by {
                assert(after.is_tree_table(table));
            }
        }
    }

    /// A write to the entry of a page in its level-1 table stays inside the
    /// tree and takes no frame.
    pub proof fn lemma_write_leaf_confined<A: FrameAllocator>(
        self,
        page: nat,
        word: u64,
        allocator: &A,
        used: nat,
    )
        requires
            self.is_tree(),
            is_page_number(page),
            p4_index_of(page) != 511,
            self.p1_table(page).is_some(),
        ensures
            self.confined_to(
                self.set_entry(self.p1_table(page).unwrap(), p1_index_of(page), word),
                allocator,
                used,
                used,
            ),
    {
        reveal(MachineView::confined_to);
        let p1 = self.p1_table(page).unwrap();
        let after = self.set_entry(p1, p1_index_of(page), word);
        self.lemma_write_leaf(page, word);
        self.lemma_tables_of_page(page);
        assert(is_path(3, p4_index_of(page), p3_index_of(page), p2_index_of(page)));
        assert(after.table(3, p4_index_of(page), p3_index_of(page), p2_index_of(page)) == Some(
            p1,
        ));
        assert forall|frame: nat| #[trigger] after.is_tree_table(frame) implies self.is_tree_table(
            frame,
        ) by {
            let (d, a, b, c) = choose|d: nat, a: nat, b: nat, c: nat|
                is_path(d, a, b, c) && #[trigger] after.table(d, a, b, c) == Some(frame);
            assert(self.table(d, a, b, c) == Some(frame));
        }
        assert forall|frame: nat| #[trigger] self.is_tree_table(frame) implies after.is_tree_table(
            frame,
        ) by {
            let (d, a, b, c) = choose|d: nat, a: nat, b: nat, c: nat|
                is_path(d, a, b, c) && #[trigger] self.table(d, a, b, c) == Some(frame);
            assert(after.table(d, a, b, c) == Some(frame));
        }
        assert forall|frame: nat, i: nat|
            i < 512 && !after.is_tree_table(frame) implies #[trigger] after.entry(frame, i)
            == self.entry(frame, i) by {
            assert(frame != p1);
            assert(frame * 512 + i != p1 * 512 + p1_index_of(page));
        }
    }

    /// A tree has the recursive mapping in place.
    pub proof fn lemma_tree_is_recursive(self)
        requires
            self.is_tree(),
        ensures
            self.recursive(),
    {
        reveal(MachineView::is_tree);
    }

    /// On the way to the level-4 table lie the loaded table and the root.
    pub proof fn lemma_p4_path(self)
        requires
            self.recursive(),
        ensures
            self.table_frame(P4_ADDRESS) == Some(self.root()),
            forall|frame: nat|
                self.on_table_path(P4_ADDRESS, frame) ==> frame == self.table_base || frame
                    == self.root(),
    {
        lemma_p4_address();
    }

    /// Whether every frame on the way to the table at `address` is a table.
    #[verifier::opaque]
    pub open spec fn leads_through_tables(self, address: u64) -> bool {
        forall|frame: nat| self.on_table_path(address, frame) ==> self.is_table(frame)
    }

    /// Whether `after` has the root, the loaded table and the invalidations
    /// of this machine, translates every page outside the recursive mapping
    /// as this machine does, and leaves free to be mapped what was.
    #[verifier::opaque]
    pub open spec fn extends_to(self, after: MachineView) -> bool {
        &&& after.root() == self.root()
        &&& after.table_base == self.table_base
        &&& after.flushes == self.flushes
        &&& forall|page: nat|
            p4_index_of(page) != 511 ==> #[trigger] after.mapping(page) == self.mapping(page)
        &&& forall|page: nat|
            p4_index_of(page) != 511 && #[trigger] self.is_vacant(page) ==> after.is_vacant(page)
        &&& forall|page: nat|
            p4_index_of(page) != 511 && #[trigger] self.is_leaf_mapped(page)
                ==> self.keeps_leaf(after, page)
    }

    /// What holds from one machine to the next and from there to a third
    /// holds from the first to the third.
    pub proof fn lemma_extends_twice(self, middle: MachineView, after: MachineView)
        requires
            self.extends_to(middle),
            middle.extends_to(after),
        ensures
            self.extends_to(after),
    {
        reveal(MachineView::extends_to);
        assert forall|page: nat| p4_index_of(page) != 511 implies #[trigger] after.mapping(page)
            == self.mapping(page) by {
            assert(middle.mapping(page) == self.mapping(page));
        }
        assert forall|page: nat|
            p4_index_of(page) != 511 && #[trigger] self.is_vacant(page) implies after.is_vacant(
            page,
        ) by {
            assert(middle.is_vacant(page));
        }
        assert forall|page: nat|
            p4_index_of(page) != 511 && #[trigger] self.is_leaf_mapped(page) implies self.keeps_leaf(
            after,
            page,
        ) by {
            assert(middle.is_leaf_mapped(page));
        }
    }

    /// Making sure of the table below the table at `level` on the way to a
    /// page, in a tree in which nothing stands in the page's way, with a
    /// fresh frame at hand: it goes through and leaves such a tree, with the
    /// next table on the way in place and the frames that follow fresh.
    pub proof fn lemma_page_step<A: FrameAllocator>(
        self,
        page: nat,
        level: nat,
        allocator: &A,
        used: nat,
        count: nat,
    )
        requires
            self.is_tree(),
            p4_index_of(page) != 511,
            level <= 2,
            self.is_vacant(page),
            self.has_fresh_frames(allocator, used, count),
            count >= 1,
            self.table(
                way_path(page, level).0,
                way_path(page, level).1,
                way_path(page, level).2,
                way_path(page, level).3,
            ).is_some(),
            self.table_frame(way_address(page, level)) == self.table(
                way_path(page, level).0,
                way_path(page, level).1,
                way_path(page, level).2,
                way_path(page, level).3,
            ),
            self.leads_through_tables(way_address(page, level)),
        ensures
            self.can_grow(way_address(page, level), way_index(page, level), allocator, used),
            ({
                let (after, taken) = self.grow(
                    way_address(page, level),
                    way_index(page, level),
                    allocator,
                    used,
                );
                let next = way_path(page, level + 1);
                &&& after.is_tree()
                &&& after.is_vacant(page)
                &&& self.extends_to(after)
                &&& used <= taken <= used + 1
                &&& after.table(next.0, next.1, next.2, next.3).is_some()
                &&& after.table_frame(way_address(page, level + 1)) == after.table(
                    next.0,
                    next.1,
                    next.2,
                    next.3,
                )
                &&& after.leads_through_tables(way_address(page, level + 1))
                &&& after.has_fresh_frames(allocator, taken, (count - (taken - used)) as nat)
                &&& self.confined_to(after, allocator, used, taken)
            }),
    {
        reveal(MachineView::leads_through_tables);
        reveal(MachineView::extends_to);
        let path = way_path(page, level);
        let here = self.table(path.0, path.1, path.2, path.3).unwrap();
        self.lemma_tables_of_page(page);
        self.lemma_tree_is_recursive();
        lemma_p4_address();
        if level >= 1 {
            self.lemma_descend(P4_ADDRESS, 4, p4_index_of(page));
        }
        if level >= 2 {
            self.lemma_descend(p3_address(page), 3, p3_index_of(page));
        }
        assert(!word_huge(self.entry(here, way_index(page, level)))) by {
            reveal(MachineView::is_vacant);
        }
        assert(allocator.upcoming(used).is_some() && allocator.upcoming(used).unwrap()@
            < ENTRY_FRAME_LIMIT && !self.is_table(allocator.upcoming(used).unwrap()@)) by {
            reveal(MachineView::has_fresh_frames);
        }
        self.lemma_grow_in_tree(
            path.0,
            path.1,
            path.2,
            path.3,
            way_address(page, level),
            way_index(page, level),
            allocator,
            used,
        );
        self.lemma_grow_confined(
            path.0,
            path.1,
            path.2,
            path.3,
            way_address(page, level),
            way_index(page, level),
            allocator,
            used,
        );
        let (after, taken) = self.grow(
            way_address(page, level),
            way_index(page, level),
            allocator,
            used,
        );
        let left = (count - (taken - used)) as nat;
        assert(after.has_fresh_frames(allocator, taken, left)) by {
            reveal(MachineView::has_fresh_frames);
            assert forall|k: nat| taken <= k < taken + left implies (
            #[trigger] allocator.upcoming(k)).is_some() && allocator.upcoming(k).unwrap()@
                < ENTRY_FRAME_LIMIT && !after.is_table(allocator.upcoming(k).unwrap()@) by {
                let fresh = allocator.upcoming(k).unwrap()@;
                assert(!self.is_table(fresh));
                assert(after.is_table(fresh) == (self.is_table(fresh) || (taken != used && fresh
                    == allocator.upcoming(used).unwrap()@)));
            }
        }
    }

    /// In a tree, the tables on the way to a page that nothing stands in the
    /// way of can be made with fresh frames. That leaves a tree with the
    /// same translations in which the page has its level-1 table.
    pub proof fn lemma_tables_in_tree<A: FrameAllocator>(
        self,
        page: nat,
        allocator: &A,
        used: nat,
        count: nat,
    )
        requires
            self.is_tree(),
            p4_index_of(page) != 511,
            self.is_vacant(page),
            self.has_fresh_frames(allocator, used, count),
            count >= 3,
        ensures
            ({
                let (s1, u1) = self.grow(P4_ADDRESS, p4_index_of(page), allocator, used);
                let (s2, u2) = s1.grow(p3_address(page), p3_index_of(page), allocator, u1);
                let (s3, u3) = s2.grow(p2_address(page), p2_index_of(page), allocator, u2);
                &&& self.can_grow(P4_ADDRESS, p4_index_of(page), allocator, used)
                &&& s1.can_grow(p3_address(page), p3_index_of(page), allocator, u1)
                &&& s2.can_grow(p2_address(page), p2_index_of(page), allocator, u2)
                &&& s3.is_tree()
                &&& self.extends_to(s3)
                &&& used <= u3 <= used + 3
                &&& s3.p1_table(page).is_some()
                &&& s3.table_frame(p1_address(page)) == s3.p1_table(page)
                &&& s3.is_vacant(page)
                &&& s3.has_fresh_frames(allocator, u3, (count - (u3 - used)) as nat)
                &&& self.confined_to(s3, allocator, used, u3)
            }),
    {
        self.lemma_tree_is_recursive();
        self.lemma_root_is_table();
        self.lemma_p4_path();
        assert(self.leads_through_tables(P4_ADDRESS)) by {
            reveal(MachineView::leads_through_tables);
        }
        self.lemma_page_step(page, 0, allocator, used, count);
        let (s1, u1) = self.grow(P4_ADDRESS, p4_index_of(page), allocator, used);
        let c1 = (count - (u1 - used)) as nat;
        s1.lemma_page_step(page, 1, allocator, u1, c1);
        let (s2, u2) = s1.grow(p3_address(page), p3_index_of(page), allocator, u1);
        let c2 = (c1 - (u2 - u1)) as nat;
        s2.lemma_page_step(page, 2, allocator, u2, c2);
        let (s3, u3) = s2.grow(p2_address(page), p2_index_of(page), allocator, u2);
        self.lemma_extends_twice(s1, s2);
        self.lemma_extends_twice(s2, s3);
        self.lemma_confined_twice(s1, s2, allocator, used, u1, u2);
        self.lemma_confined_twice(s2, s3, allocator, used, u2, u3);
        s3.lemma_tables_of_page(page);
    }

    /// In a tree, a page that nothing stands in the way of can be mapped
    /// with fresh frames for the tables that are missing. That leaves a tree
    /// in which the page translates to its frame and every other page as
    /// before; at most three frames are taken, and the frames that follow
    /// them are still fresh.
    pub proof fn lemma_map_to_in_tree<A: FrameAllocator>(
        self,
        page: nat,
        frame: nat,
        flags: u64,
        allocator: &A,
        used: nat,
        count: nat,
    )
        requires
            self.is_tree(),
            is_page_number(page),
            p4_index_of(page) != 511,
            frame < ENTRY_FRAME_LIMIT,
            flags & !ALL_FLAGS == 0,
            self.is_vacant(page),
            self.has_fresh_frames(allocator, used, count),
            count >= 3,
        ensures
            self.can_map_to(page, frame, allocator, used),
            ({
                let (after, taken) = self.map_to(page, frame, flags, allocator, used);
                &&& after.is_tree()
                &&& used <= taken <= used + 3
                &&& after.root() == self.root()
                &&& after.table_base == self.table_base
                &&& after.flushes == self.flushes
                &&& after.mapping(page) == Some(frame)
                &&& forall|other: nat|
                    is_page_number(other) && p4_index_of(other) != 511 && other != page
                        ==> #[trigger] after.mapping(other) == self.mapping(other)
                &&& forall|other: nat|
                    is_page_number(other) && p4_index_of(other) != 511 && other != page
                        && #[trigger] self.is_vacant(other) ==> after.is_vacant(other)
                &&& after.has_fresh_frames(allocator, taken, (count - (taken - used)) as nat)
                &&& self.confined_to(after, allocator, used, taken)
                &&& after.is_leaf_mapped(page)
                &&& after.leaf(page) == make_word(frame, flags | PRESENT)
                &&& after.is_mapped_with(page, flags)
                &&& forall|other: nat|
                    is_page_number(other) && p4_index_of(other) != 511 && other != page
                        && #[trigger] self.is_leaf_mapped(other) ==> self.keeps_leaf(after, other)
            }),
    {
        self.lemma_tables_in_tree(page, allocator, used, count);
        let (s1, u1) = self.grow(P4_ADDRESS, p4_index_of(page), allocator, used);
        let (s2, u2) = s1.grow(p3_address(page), p3_index_of(page), allocator, u1);
        let (s3, u3) = s2.grow(p2_address(page), p2_index_of(page), allocator, u2);
        let word = make_word(frame, flags | PRESENT);
        let bits = flags | PRESENT;
        assert(bits & !ALL_FLAGS == 0 && bits & PRESENT != 0) by (bit_vector)
            requires
                flags & !ALL_FLAGS == 0,
                bits == flags | PRESENT,
        ;
        lemma_make_word(frame as u64, bits);
        s3.lemma_write_leaf(page, word);
        s3.lemma_write_leaf_confined(page, word, allocator, u3);
        let after = s3.set_entry(s3.p1_table(page).unwrap(), p1_index_of(page), word);
        self.lemma_confined_twice(s3, after, allocator, used, u3, u3);
        assert(after.p1_table(page) == s3.p1_table(page)) by {
            s3.lemma_tables_of_page(page);
            after.lemma_tables_of_page(page);
        }
        assert(s3.entry(s3.p1_table(page).unwrap(), p1_index_of(page)) == 0) by {
            reveal(MachineView::is_vacant);
        }
        assert(self.can_map_to(page, frame, allocator, used)) by {
            reveal(MachineView::can_map_to);
            self.lemma_tree_is_recursive();
        }
        assert(after == self.map_to(page, frame, flags, allocator, used).0 && u3 == self.map_to(
            page,
            frame,
            flags,
            allocator,
            used,
        ).1) by {
            reveal(MachineView::map_to);
        }
        assert(after.root() == self.root() && after.table_base == self.table_base
            && after.flushes == self.flushes) by {
            reveal(MachineView::extends_to);
        }
        assert forall|other: nat|
            is_page_number(other) && p4_index_of(other) != 511 && other != page implies (
        #[trigger] after.mapping(other)) == self.mapping(other) by {
            reveal(MachineView::extends_to);
            assert(s3.mapping(other) == self.mapping(other));
        }
        assert forall|other: nat|
            is_page_number(other) && p4_index_of(other) != 511 && other != page
                && #[trigger] self.is_vacant(other) implies after.is_vacant(other) by {
            reveal(MachineView::extends_to);
            assert(s3.is_vacant(other));
        }
        assert forall|other: nat|
            is_page_number(other) && p4_index_of(other) != 511 && other != page
                && #[trigger] self.is_leaf_mapped(other) implies self.keeps_leaf(after, other) by {
            reveal(MachineView::extends_to);
            assert(s3.is_leaf_mapped(other));
        }
        let left = (count - (u3 - used)) as nat;
        assert(after.has_fresh_frames(allocator, u3, left)) by {
            reveal(MachineView::has_fresh_frames);
            assert forall|k: nat| u3 <= k < u3 + left implies (#[trigger] allocator.upcoming(
                k,
            )).is_some() && allocator.upcoming(k).unwrap()@ < ENTRY_FRAME_LIMIT
                && !after.is_table(allocator.upcoming(k).unwrap()@) by {
                let fresh = allocator.upcoming(k).unwrap()@;
                assert(after.is_table(fresh) == s3.is_table(fresh));
            }
        }
    }
}

/// Address of the table at `level` on the way to `page`: 0 for the level-4
/// table down to 3 for the table that maps the page.
pub open spec fn way_address(page: nat, level: nat) -> u64 {
    if level == 0 {
        P4_ADDRESS
    } else if level == 1 {
        p3_address(page)
    } else if level == 2 {
        p2_address(page)
    } else {
        p1_address(page)
    }
}

/// Index of the entry of the table at `level` on the way to `page`.
pub open spec fn way_index(page: nat, level: nat) -> nat {
    if level == 0 {
        p4_index_of(page)
    } else if level == 1 {
        p3_index_of(page)
    } else if level == 2 {
        p2_index_of(page)
    } else {
        p1_index_of(page)
    }
}

/// Path of the table at `level` on the way to `page`.
pub open spec fn way_path(page: nat, level: nat) -> (nat, nat, nat, nat) {
    if level == 0 {
        (0, 0, 0, 0)
    } else if level == 1 {
        (1, p4_index_of(page), 0, 0)
    } else if level == 2 {
        (2, p4_index_of(page), p3_index_of(page), 0)
    } else {
        (3, p4_index_of(page), p3_index_of(page), p2_index_of(page))
    }
}

impl MachineView {
    /// The frames that are fresh behind the ones an allocator has handed out
    /// are fresh from the start for the allocator as it is after that.
    pub proof fn lemma_fresh_after<A: FrameAllocator>(
        self,
        behind: &A,
        ahead: &A,
        used: nat,
        count: nat,
    )
        requires
            self.has_fresh_frames(behind, used, count),
            crate::memory::paging::table::supply_advanced(behind, ahead, used),
        ensures
            self.has_fresh_frames(ahead, 0, count),
    {
        reveal(MachineView::has_fresh_frames);
        assert forall|k: nat| 0 <= k < 0 + count implies (#[trigger] ahead.upcoming(k)).is_some()
            && ahead.upcoming(k).unwrap()@ < ENTRY_FRAME_LIMIT && !self.is_table(
            ahead.upcoming(k).unwrap()@,
        ) by {
            assert(ahead.upcoming(k) == behind.upcoming(k + used));
        }
        assert forall|j: nat, k: nat| 0 <= j < k < 0 + count implies (#[trigger] ahead.upcoming(
            j,
        )).unwrap()@ != (#[trigger] ahead.upcoming(k)).unwrap()@ by {
            assert(ahead.upcoming(j) == behind.upcoming(j + used));
            assert(ahead.upcoming(k) == behind.upcoming(k + used));
        }
    }

    /// Fewer frames of a fresh supply are a fresh supply.
    pub proof fn lemma_fewer_fresh_frames<A: FrameAllocator>(
        self,
        allocator: &A,
        used: nat,
        count: nat,
        from: nat,
        fewer: nat,
    )
        requires
            self.has_fresh_frames(allocator, used, count),
            used <= from,
            from + fewer <= used + count,
        ensures
            self.has_fresh_frames(allocator, from, fewer),
    {
        reveal(MachineView::has_fresh_frames);
    }

    /// In a tree, a page that nothing stands in the way of can be mapped to
    /// the next frame of a fresh supply, with the frames behind it for the
    /// tables. That leaves a tree in which the page translates to that frame
    /// and every other page as before; at most four frames are taken, and
    /// the frames that follow them are still fresh.
    pub proof fn lemma_map_in_tree<A: FrameAllocator>(
        self,
        page: nat,
        flags: u64,
        allocator: &A,
        used: nat,
        count: nat,
    )
        requires
            self.is_tree(),
            is_page_number(page),
            p4_index_of(page) != 511,
            flags & !ALL_FLAGS == 0,
            self.is_vacant(page),
            self.has_fresh_frames(allocator, used, count),
            count >= 4,
        ensures
            self.can_map(page, allocator, used),
            ({
                let (after, taken) = self.map(page, flags, allocator, used);
                &&& after.is_tree()
                &&& used < taken <= used + 4
                &&& after.root() == self.root()
                &&& after.table_base == self.table_base
                &&& after.flushes == self.flushes
                &&& after.mapping(page) == Some(allocator.upcoming(used).unwrap()@)
                &&& forall|other: nat|
                    is_page_number(other) && p4_index_of(other) != 511 && other != page
                        ==> #[trigger] after.mapping(other) == self.mapping(other)
                &&& forall|other: nat|
                    is_page_number(other) && p4_index_of(other) != 511 && other != page
                        && #[trigger] self.is_vacant(other) ==> after.is_vacant(other)
                &&& after.has_fresh_frames(allocator, taken, (count - (taken - used)) as nat)
                &&& self.confined_to(after, allocator, used, taken)
                &&& after.is_leaf_mapped(page)
                &&& after.leaf(page) == make_word(
                    allocator.upcoming(used).unwrap()@,
                    flags | PRESENT,
                )
                &&& after.is_mapped_with(page, flags)
                &&& forall|other: nat|
                    is_page_number(other) && p4_index_of(other) != 511 && other != page
                        && #[trigger] self.is_leaf_mapped(other) ==> self.keeps_leaf(after, other)
            }),
    {
        assert(allocator.upcoming(used).is_some() && allocator.upcoming(used).unwrap()@
            < ENTRY_FRAME_LIMIT) by {
            reveal(MachineView::has_fresh_frames);
        }
        self.lemma_fewer_fresh_frames(allocator, used, count, used + 1, (count - 1) as nat);
        self.lemma_map_to_in_tree(
            page,
            allocator.upcoming(used).unwrap()@,
            flags,
            allocator,
            used + 1,
            (count - 1) as nat,
        );
        let (after, taken) = self.map(page, flags, allocator, used);
        self.lemma_confined_wider(after, allocator, used + 1, taken, used, taken);
    }

    /// A machine with the same memory and the same loaded table is a tree if
    /// the other is, and translates as the other does.
    pub proof fn lemma_same_words(self, after: MachineView)
        requires
            after.words == self.words,
            after.table_base == self.table_base,
        ensures
            self.is_tree() ==> after.is_tree(),
            forall|frame: nat| #[trigger] after.is_table(frame) == self.is_table(frame),
            forall|page: nat| #[trigger] after.mapping(page) == self.mapping(page),
            forall|page: nat| #[trigger] after.is_vacant(page) == self.is_vacant(page),
    {
        reveal(MachineView::is_tree);
        reveal(MachineView::is_vacant);
        assert forall|depth: nat, a: nat, b: nat, c: nat| #[trigger]
            after.table(depth, a, b, c) == self.table(depth, a, b, c) by {}
        assert forall|frame: nat| #[trigger] after.is_table(frame) == self.is_table(frame) by {
            if after.is_table(frame) && frame != after.table_base {
                let (d2, a2, b2, c2) = choose|d2: nat, a2: nat, b2: nat, c2: nat|
                    is_path(d2, a2, b2, c2) && #[trigger] after.table(d2, a2, b2, c2) == Some(frame);
                assert(self.table(d2, a2, b2, c2) == Some(frame));
            }
            if self.is_table(frame) && frame != self.table_base {
                let (d2, a2, b2, c2) = choose|d2: nat, a2: nat, b2: nat, c2: nat|
                    is_path(d2, a2, b2, c2) && #[trigger] self.table(d2, a2, b2, c2) == Some(frame);
                assert(after.table(d2, a2, b2, c2) == Some(frame));
            }
        }
        if self.is_tree() {
            assert forall|d1: nat, a1: nat, b1: nat, c1: nat, d2: nat, a2: nat, b2: nat, c2: nat|
                is_path(d1, a1, b1, c1) && is_path(d2, a2, b2, c2) && (#[trigger] after.table(
                    d1,
                    a1,
                    b1,
                    c1,
                )).is_some() && after.table(d1, a1, b1, c1) == #[trigger] after.table(
                    d2,
                    a2,
                    b2,
                    c2,
                ) implies d1 == d2 && a1 == a2 && b1 == b2 && c1 == c2 by {
                assert(self.table(d1, a1, b1, c1) == self.table(d2, a2, b2, c2));
            }
            assert forall|depth: nat, a: nat, b: nat, c: nat|
                is_path(depth, a, b, c) && depth >= 1 implies #[trigger] after.table(
                depth,
                a,
                b,
                c,
            ) != Some(after.table_base) by {
                assert(self.table(depth, a, b, c) != Some(self.table_base));
            }
        }
    }

    /// Whether `page` is a page outside the recursive mapping that nothing
    /// stands in the way of.
    pub open spec fn is_mappable(self, page: nat) -> bool {
        is_page_number(page) && p4_index_of(page) != 511 && self.is_vacant(page)
    }

    /// Whether each of the `count` pages from `start` on can be mapped.
    #[verifier::opaque]
    pub open spec fn is_vacant_range(self, start: nat, count: nat) -> bool {
        forall|page: nat| start <= page < start + count ==> #[trigger] self.is_mappable(page)
    }

    /// Whether `page` is mapped by a present entry of a level-1 table that
    /// carries the flags `flags` and the present flag, and no other.
    pub open spec fn is_mapped_with(self, page: nat, flags: u64) -> bool {
        self.is_leaf_mapped(page) && word_flags(self.leaf(page)) == flags | PRESENT
    }

    /// Whether each of the `count` pages from `start` on is mapped by an
    /// entry with the flags `flags` and the present flag.
    #[verifier::opaque]
    pub open spec fn maps_range_with(self, start: nat, count: nat, flags: u64) -> bool {
        forall|page: nat|
            start <= page < start + count ==> #[trigger] self.is_mapped_with(page, flags)
    }

    /// The first page of a run keeps its entry while the rest of the run is
    /// mapped.
    proof fn lemma_flags_step(
        self,
        after: MachineView,
        start: nat,
        count: nat,
        flags: u64,
    )
        requires
            count > 0,
            is_page_number(start),
            p4_index_of(start) != 511,
            self.is_mapped_with(start, flags),
            self.agrees_outside(after, start + 1, (count - 1) as nat),
            after.maps_range_with(start + 1, (count - 1) as nat, flags),
        ensures
            after.maps_range_with(start, count, flags),
    {
        reveal(MachineView::agrees_outside);
        reveal(MachineView::maps_range_with);
        assert forall|page: nat|
            start <= page < start + count implies #[trigger] after.is_mapped_with(page, flags) by {
            if page == start {
                assert(self.is_leaf_mapped(start));
                assert(self.keeps_leaf(after, start));
            }
        }
    }

    /// Whether each of the `count` pages from `start` on is mapped.
    #[verifier::opaque]
    pub open spec fn maps_range(self, start: nat, count: nat) -> bool {
        forall|page: nat|
            start <= page < start + count ==> (#[trigger] self.mapping(page)).is_some()
    }

    /// Whether `after` has the root, the loaded table and the invalidations
    /// of this machine and differs from it at most in the `count` pages from
    /// `start` on: every other page outside the recursive mapping translates
    /// as before, and is free to be mapped if it was.
    #[verifier::opaque]
    pub open spec fn agrees_outside(self, after: MachineView, start: nat, count: nat) -> bool {
        &&& after.root() == self.root()
        &&& after.table_base == self.table_base
        &&& after.flushes == self.flushes
        &&& forall|other: nat|
            is_page_number(other) && p4_index_of(other) != 511 && !(start <= other < start + count)
                ==> #[trigger] after.mapping(other) == self.mapping(other)
        &&& forall|other: nat|
            is_page_number(other) && p4_index_of(other) != 511 && !(start <= other < start + count)
                && #[trigger] self.is_vacant(other) ==> after.is_vacant(other)
        &&& forall|other: nat|
            is_page_number(other) && p4_index_of(other) != 511 && !(start <= other < start + count)
                && #[trigger] self.is_leaf_mapped(other) ==> self.keeps_leaf(after, other)
    }

    /// Mapping the first page of a run and then the rest maps the run and
    /// leaves the pages outside it alone.
    proof fn lemma_range_step(self, next: MachineView, after: MachineView, start: nat, count: nat)
        requires
            count > 0,
            is_page_number(start),
            p4_index_of(start) != 511,
            self.agrees_outside(next, start, 1),
            next.mapping(start).is_some(),
            next.agrees_outside(after, start + 1, (count - 1) as nat),
            after.maps_range(start + 1, (count - 1) as nat),
        ensures
            self.agrees_outside(after, start, count),
            after.maps_range(start, count),
    {
        reveal(MachineView::agrees_outside);
        reveal(MachineView::maps_range);
        assert forall|page: nat| start <= page < start + count implies (#[trigger] after.mapping(
            page,
        )).is_some() by {
            if page == start {
                assert(after.mapping(start) == next.mapping(start));
            }
        }
        assert forall|other: nat|
            is_page_number(other) && p4_index_of(other) != 511 && !(start <= other < start
                + count) implies #[trigger] after.mapping(other) == self.mapping(other) by {
            assert(next.mapping(other) == self.mapping(other));
        }
        assert forall|other: nat|
            is_page_number(other) && p4_index_of(other) != 511 && !(start <= other < start
                + count) && #[trigger] self.is_vacant(other) implies after.is_vacant(other) by {
            assert(next.is_vacant(other));
        }
        assert forall|other: nat|
            is_page_number(other) && p4_index_of(other) != 511 && !(start <= other < start
                + count) && #[trigger] self.is_leaf_mapped(other) implies self.keeps_leaf(
                after,
                other,
            ) by {
            assert(next.is_leaf_mapped(other));
        }
    }

    /// The first page of a run that can be mapped can be mapped.
    proof fn lemma_range_first(self, start: nat, count: nat)
        requires
            count > 0,
            self.is_vacant_range(start, count),
        ensures
            self.is_mappable(start),
    {
        reveal(MachineView::is_vacant_range);
    }

    /// The rest of a run that can be mapped can be mapped after the first
    /// page of the run was.
    proof fn lemma_range_rest(self, next: MachineView, start: nat, count: nat)
        requires
            count > 0,
            self.is_vacant_range(start, count),
            self.agrees_outside(next, start, 1),
        ensures
            next.is_vacant_range(start + 1, (count - 1) as nat),
    {
        reveal(MachineView::agrees_outside);
        reveal(MachineView::is_vacant_range);
        assert forall|page: nat| start + 1 <= page < start + 1 + (count - 1) implies (
        #[trigger] next.is_mappable(page)) by {
            assert(self.is_mappable(page));
        }
    }

    /// In a tree, a run of pages that nothing stands in the way of can be
    /// mapped with a fresh supply of four frames for each page. That leaves
    /// a tree in which every page of the run is mapped and every other page
    /// translates as before; the frames that follow the ones taken are
    /// still fresh.
    pub proof fn lemma_map_range_in_tree<A: FrameAllocator>(
        self,
        start: nat,
        pages: nat,
        flags: u64,
        allocator: &A,
        used: nat,
        count: nat,
    )
        requires
            self.is_tree(),
            flags & !ALL_FLAGS == 0,
            self.is_vacant_range(start, pages),
            self.has_fresh_frames(allocator, used, count),
            count >= 4 * pages,
        ensures
            self.can_map_range(start, pages, flags, allocator, used),
            ({
                let (after, taken) = self.map_range(start, pages, flags, allocator, used);
                &&& after.is_tree()
                &&& used <= taken <= used + 4 * pages
                &&& after.maps_range(start, pages)
                &&& after.maps_range_with(start, pages, flags)
                &&& self.agrees_outside(after, start, pages)
                &&& after.has_fresh_frames(allocator, taken, (count - (taken - used)) as nat)
                &&& self.confined_to(after, allocator, used, taken)
            }),
        decreases pages,
    {
        if pages > 0 {
            self.lemma_range_first(start, pages);
            self.lemma_map_in_tree(start, flags, allocator, used, count);
            let (next, taken) = self.map(start, flags, allocator, used);
            let left = (count - (taken - used)) as nat;
            assert(self.agrees_outside(next, start, 1)) by {
                reveal(MachineView::agrees_outside);
            }
            self.lemma_range_rest(next, start, pages);
            next.lemma_map_range_in_tree(
                start + 1,
                (pages - 1) as nat,
                flags,
                allocator,
                taken,
                left,
            );
            let (after, last) = next.map_range(
                start + 1,
                (pages - 1) as nat,
                flags,
                allocator,
                taken,
            );
            self.lemma_range_step(next, after, start, pages);
            next.lemma_flags_step(after, start, pages, flags);
            self.lemma_confined_twice(next, after, allocator, used, taken, last);
        } else {
            self.lemma_fewer_fresh_frames(allocator, used, count, used, count);
            assert(self.confined_to(self, allocator, used, used)) by {
                reveal(MachineView::confined_to);
            }
            assert(self.maps_range(start, 0)) by {
                reveal(MachineView::maps_range);
            }
            assert(self.maps_range_with(start, 0, flags)) by {
                reveal(MachineView::maps_range_with);
            }
            assert(self.agrees_outside(self, start, 0)) by {
                reveal(MachineView::agrees_outside);
            }
        }
    }
}

impl MachineView {
    /// In a tree, a page whose level-1 table is there and whose entry is
    /// unused can be mapped without a frame from the allocator: the entry of
    /// the page is written and nothing else.
    pub proof fn lemma_map_to_existing<A: FrameAllocator>(
        self,
        page: nat,
        frame: nat,
        flags: u64,
        allocator: &A,
        used: nat,
    )
        requires
            self.is_tree(),
            is_page_number(page),
            p4_index_of(page) != 511,
            self.p1_table(page).is_some(),
            self.entry(self.p1_table(page).unwrap(), p1_index_of(page)) == 0,
            frame < ENTRY_FRAME_LIMIT,
            flags & !ALL_FLAGS == 0,
        ensures
            self.can_map_to(page, frame, allocator, used),
            self.map_to(page, frame, flags, allocator, used) == (
                self.set_entry(
                    self.p1_table(page).unwrap(),
                    p1_index_of(page),
                    make_word(frame, flags | PRESENT),
                ),
                used,
            ),
            self.map_to(page, frame, flags, allocator, used).0.is_tree(),
            self.map_to(page, frame, flags, allocator, used).0.mapping(page) == Some(frame),
            self.map_to(page, frame, flags, allocator, used).0.is_leaf_mapped(page),
    {
        reveal(MachineView::can_map_to);
        reveal(MachineView::map_to);
        self.lemma_tree_is_recursive();
        self.lemma_table_addresses(page);
        let word = make_word(frame, flags | PRESENT);
        let bits = flags | PRESENT;
        assert(bits & !ALL_FLAGS == 0 && bits & PRESENT != 0) by (bit_vector)
            requires
                flags & !ALL_FLAGS == 0,
                bits == flags | PRESENT,
        ;
        lemma_make_word(frame as u64, bits);
        self.lemma_write_leaf(page, word);
    }

    /// A machine that has the root of a tree and, but for the recursive
    /// entry of the root, the entries of the tables of that tree, is a tree
    /// with the same tables and translations. The loaded level-4 table may
    /// be the same as in the tree, or the root.
    pub proof fn lemma_same_on_tables(self, after: MachineView)
        requires
            self.is_tree(),
            after.table_base == self.table_base || after.table_base == self.root(),
            after.recursive(),
            after.root() == self.root(),
            forall|frame: nat, i: nat|
                i < 512 && self.is_tree_table(frame) && !(frame == self.root() && i == 511)
                    ==> #[trigger] after.entry(frame, i) == self.entry(frame, i),
        ensures
            after.is_tree(),
            forall|depth: nat, a: nat, b: nat, c: nat|
                is_path(depth, a, b, c) ==> #[trigger] after.table(depth, a, b, c) == self.table(
                    depth,
                    a,
                    b,
                    c,
                ),
            forall|frame: nat| #[trigger] after.is_tree_table(frame) == self.is_tree_table(frame),
            forall|page: nat|
                p4_index_of(page) != 511 ==> #[trigger] after.mapping(page) == self.mapping(page),
            forall|page: nat|
                p4_index_of(page) != 511 ==> #[trigger] after.is_vacant(page) == self.is_vacant(
                    page,
                ),
            forall|page: nat|
                p4_index_of(page) != 511 ==> #[trigger] after.is_leaf_mapped(page)
                    == self.is_leaf_mapped(page),
            forall|page: nat|
                p4_index_of(page) != 511 ==> #[trigger] after.leaf(page) == self.leaf(page),
    {
        reveal(MachineView::is_tree);
        self.lemma_root_is_table();
        assert forall|depth: nat, a: nat, b: nat, c: nat|
            is_path(depth, a, b, c) implies #[trigger] after.table(depth, a, b, c) == self.table(
            depth,
            a,
            b,
            c,
        ) by {
            self.lemma_same_step(after, 0, 0, 0, 0, a);
            if depth >= 2 && self.table(1, a, 0, 0).is_some() {
                self.lemma_same_step(after, 1, a, 0, 0, b);
                if depth >= 3 && self.table(2, a, b, 0).is_some() {
                    self.lemma_same_step(after, 2, a, b, 0, c);
                }
            }
        }
        assert forall|frame: nat| #[trigger] after.is_tree_table(frame) == self.is_tree_table(
            frame,
        ) by {
            if after.is_tree_table(frame) {
                let (d, a, b, c) = choose|d: nat, a: nat, b: nat, c: nat|
                    is_path(d, a, b, c) && #[trigger] after.table(d, a, b, c) == Some(frame);
                assert(self.table(d, a, b, c) == Some(frame));
            }
            if self.is_tree_table(frame) {
                let (d, a, b, c) = choose|d: nat, a: nat, b: nat, c: nat|
                    is_path(d, a, b, c) && #[trigger] self.table(d, a, b, c) == Some(frame);
                assert(after.table(d, a, b, c) == Some(frame));
            }
        }
        assert forall|d1: nat, a1: nat, b1: nat, c1: nat, d2: nat, a2: nat, b2: nat, c2: nat|
            is_path(d1, a1, b1, c1) && is_path(d2, a2, b2, c2) && (#[trigger] after.table(
                d1,
                a1,
                b1,
                c1,
            )).is_some() && after.table(d1, a1, b1, c1) == #[trigger] after.table(
                d2,
                a2,
                b2,
                c2,
            ) implies d1 == d2 && a1 == a2 && b1 == b2 && c1 == c2 by {
            assert(self.table(d1, a1, b1, c1) == self.table(d2, a2, b2, c2));
        }
        assert forall|depth: nat, a: nat, b: nat, c: nat|
            is_path(depth, a, b, c) && depth >= 1 implies #[trigger] after.table(depth, a, b, c)
            != Some(after.table_base) by {
            assert(self.table(depth, a, b, c) != Some(self.table_base));
            assert(self.table(0, 0, 0, 0) == Some(self.root()));
            if self.table(depth, a, b, c) == Some(self.root()) {
                assert(self.table(depth, a, b, c) == self.table(0, 0, 0, 0));
            }
        }
        assert forall|page: nat| p4_index_of(page) != 511 implies (#[trigger] after.mapping(page)
            == self.mapping(page)) by {
            self.lemma_same_page(after, page);
        }
        assert forall|page: nat| p4_index_of(page) != 511 implies (#[trigger] after.is_vacant(page)
            == self.is_vacant(page)) by {
            self.lemma_same_page(after, page);
        }
        assert forall|page: nat| p4_index_of(page) != 511 implies (#[trigger] after.is_leaf_mapped(
            page,
        ) == self.is_leaf_mapped(page)) by {
            self.lemma_same_page(after, page);
        }
        assert forall|page: nat| p4_index_of(page) != 511 implies #[trigger] after.leaf(page)
            == self.leaf(page) by {
            self.lemma_same_page(after, page);
        }
    }

    /// One step down from a table: the entry is as in the tree.
    proof fn lemma_same_step(self, after: MachineView, depth: nat, a: nat, b: nat, c: nat, i: nat)
        requires
            self.is_tree(),
            is_path(depth, a, b, c),
            i < 512,
            depth == 0 ==> i != 511,
            self.table(depth, a, b, c).is_some(),
            forall|frame: nat, i: nat|
                i < 512 && self.is_tree_table(frame) && !(frame == self.root() && i == 511)
                    ==> #[trigger] after.entry(frame, i) == self.entry(frame, i),
        ensures
            after.entry(self.table(depth, a, b, c).unwrap(), i) == self.entry(
                self.table(depth, a, b, c).unwrap(),
                i,
            ),
    {
        reveal(MachineView::is_tree);
        let here = self.table(depth, a, b, c).unwrap();
        assert(self.is_tree_table(here));
        if here == self.root() && depth != 0 {
            assert(self.table(0, 0, 0, 0) == self.table(depth, a, b, c));
        }
    }

    /// A page translates as in the tree.
    proof fn lemma_same_page(self, after: MachineView, page: nat)
        requires
            self.is_tree(),
            after.root() == self.root(),
            p4_index_of(page) != 511,
            forall|frame: nat, i: nat|
                i < 512 && self.is_tree_table(frame) && !(frame == self.root() && i == 511)
                    ==> #[trigger] after.entry(frame, i) == self.entry(frame, i),
        ensures
            after.mapping(page) == self.mapping(page),
            after.is_vacant(page) == self.is_vacant(page),
            after.is_leaf_mapped(page) == self.is_leaf_mapped(page),
            after.leaf(page) == self.leaf(page),
    {
        reveal(MachineView::is_vacant);
        let (i4, i3, i2, i1) = (
            p4_index_of(page),
            p3_index_of(page),
            p2_index_of(page),
            p1_index_of(page),
        );
        self.lemma_tables_of_page(page);
        after.lemma_tables_of_page(page);
        self.lemma_same_step(after, 0, 0, 0, 0, i4);
        if self.table(1, i4, 0, 0).is_some() {
            self.lemma_same_step(after, 1, i4, 0, 0, i3);
            if self.table(2, i4, i3, 0).is_some() {
                self.lemma_same_step(after, 2, i4, i3, 0, i2);
                if self.table(3, i4, i3, i2).is_some() {
                    self.lemma_same_step(after, 3, i4, i3, i2, i1);
                }
            }
        }
    }

    /// A root whose entries are all unused but for the recursive one is a
    /// tree of one table in which no page is mapped and nothing stands in
    /// the way of any.
    pub proof fn lemma_empty_tree(self)
        requires
            self.recursive(),
            forall|i: nat| i < 511 ==> #[trigger] self.entry(self.root(), i) == 0,
        ensures
            self.is_tree(),
            forall|frame: nat| #[trigger] self.is_tree_table(frame) == (frame == self.root()),
            forall|page: nat|
                p4_index_of(page) != 511 ==> (#[trigger] self.mapping(page)).is_none(),
            forall|page: nat| p4_index_of(page) != 511 ==> #[trigger] self.is_vacant(page),
    {
        reveal(MachineView::is_tree);
        reveal(MachineView::is_vacant);
        crate::memory::paging::entry::lemma_flag_bits();
        assert forall|depth: nat, a: nat, b: nat, c: nat|
            is_path(depth, a, b, c) && depth >= 1 implies (#[trigger] self.table(
            depth,
            a,
            b,
            c,
        )).is_none() by {
            assert(self.entry(self.root(), a) == 0);
        }
        assert forall|frame: nat| #[trigger] self.is_tree_table(frame) == (frame
            == self.root()) by {
            if self.is_tree_table(frame) {
                let (d, a, b, c) = choose|d: nat, a: nat, b: nat, c: nat|
                    is_path(d, a, b, c) && #[trigger] self.table(d, a, b, c) == Some(frame);
                assert(d == 0);
            }
            if frame == self.root() {
                assert(is_path(0, 0, 0, 0));
                assert(self.table(0, 0, 0, 0) == Some(frame));
            }
        }
        assert forall|page: nat| p4_index_of(page) != 511 implies (#[trigger] self.mapping(
            page,
        )).is_none() by {
            assert(self.entry(self.root(), p4_index_of(page)) == 0);
        }
        assert forall|page: nat| p4_index_of(page) != 511 implies #[trigger] self.is_vacant(
            page,
        ) by {
            assert(self.entry(self.root(), p4_index_of(page)) == 0);
        }
    }

    /// Whether `page` can be mapped to the frame with its own number.
    pub open spec fn is_identity_page(self, page: nat) -> bool {
        self.is_mappable(page) && page < ENTRY_FRAME_LIMIT
    }

    /// Whether each of the `count` pages from `start` on can be mapped to
    /// the frame with its own number.
    #[verifier::opaque]
    pub open spec fn is_identity_range(self, start: nat, count: nat) -> bool {
        forall|page: nat| start <= page < start + count ==> #[trigger] self.is_identity_page(page)
    }

    /// Whether `page` is mapped to the frame with its own number, by a
    /// present entry of a level-1 table.
    pub open spec fn is_identity_mapped(self, page: nat) -> bool {
        self.mapping(page) == Some(page) && self.is_leaf_mapped(page)
    }

    /// Whether each of the `count` pages from `start` on is mapped to the
    /// frame with its own number.
    #[verifier::opaque]
    pub open spec fn maps_identity(self, start: nat, count: nat) -> bool {
        forall|page: nat| start <= page < start + count ==> #[trigger] self.is_identity_mapped(page)
    }

    /// Mapping the first frame of a run and then the rest maps the run and
    /// leaves the pages outside it alone.
    proof fn lemma_identity_step(
        self,
        next: MachineView,
        after: MachineView,
        start: nat,
        count: nat,
    )
        requires
            count > 0,
            is_page_number(start),
            p4_index_of(start) != 511,
            self.agrees_outside(next, start, 1),
            next.is_identity_mapped(start),
            next.agrees_outside(after, start + 1, (count - 1) as nat),
            after.maps_identity(start + 1, (count - 1) as nat),
        ensures
            self.agrees_outside(after, start, count),
            after.maps_identity(start, count),
    {
        reveal(MachineView::agrees_outside);
        reveal(MachineView::maps_identity);
        assert forall|page: nat| start <= page < start + count implies (
        #[trigger] after.is_identity_mapped(page)) by {
            if page == start {
                assert(after.mapping(start) == next.mapping(start));
                assert(next.is_leaf_mapped(start));
                assert(after.is_leaf_mapped(start));
            }
        }
        assert forall|other: nat|
            is_page_number(other) && p4_index_of(other) != 511 && !(start <= other < start
                + count) implies #[trigger] after.mapping(other) == self.mapping(other) by {
            assert(next.mapping(other) == self.mapping(other));
        }
        assert forall|other: nat|
            is_page_number(other) && p4_index_of(other) != 511 && !(start <= other < start
                + count) && #[trigger] self.is_vacant(other) implies after.is_vacant(other) by {
            assert(next.is_vacant(other));
        }
        assert forall|other: nat|
            is_page_number(other) && p4_index_of(other) != 511 && !(start <= other < start
                + count) && #[trigger] self.is_leaf_mapped(other) implies self.keeps_leaf(
                after,
                other,
            ) by {
            assert(next.is_leaf_mapped(other));
        }
    }

    /// The rest of a run that can be mapped can be mapped after the first
    /// frame of the run was.
    proof fn lemma_identity_rest(self, next: MachineView, start: nat, count: nat)
        requires
            count > 0,
            self.is_identity_range(start, count),
            self.agrees_outside(next, start, 1),
        ensures
            self.is_identity_page(start),
            next.is_identity_range(start + 1, (count - 1) as nat),
    {
        reveal(MachineView::agrees_outside);
        reveal(MachineView::is_identity_range);
        assert(self.is_identity_page(start));
        assert forall|page: nat| start + 1 <= page < start + 1 + (count - 1) implies (
        #[trigger] next.is_identity_page(page)) by {
            assert(self.is_identity_page(page));
        }
    }

    /// In a tree, a run of frames whose pages nothing stands in the way of
    /// can be mapped at their own addresses with a fresh supply of three
    /// frames for each. That leaves a tree in which every page of the run is
    /// mapped to its own frame and every other page translates as before;
    /// the frames that follow the ones taken are still fresh.
    pub proof fn lemma_identity_map_range_in_tree<A: FrameAllocator>(
        self,
        start: nat,
        frames: nat,
        flags: u64,
        allocator: &A,
        used: nat,
        count: nat,
    )
        requires
            self.is_tree(),
            flags & !ALL_FLAGS == 0,
            self.is_identity_range(start, frames),
            self.has_fresh_frames(allocator, used, count),
            count >= 3 * frames,
        ensures
            self.can_identity_map_range(start, frames, flags, allocator, used),
            ({
                let (after, taken) = self.identity_map_range(
                    start,
                    frames,
                    flags,
                    allocator,
                    used,
                );
                &&& after.is_tree()
                &&& used <= taken <= used + 3 * frames
                &&& after.maps_identity(start, frames)
                &&& after.maps_range_with(start, frames, flags)
                &&& self.agrees_outside(after, start, frames)
                &&& after.has_fresh_frames(allocator, taken, (count - (taken - used)) as nat)
                &&& self.confined_to(after, allocator, used, taken)
            }),
        decreases frames,
    {
        if frames > 0 {
            assert(self.is_identity_page(start)) by {
                reveal(MachineView::is_identity_range);
            }
            self.lemma_map_to_in_tree(start, start, flags, allocator, used, count);
            let (next, taken) = self.map_to(start, start, flags, allocator, used);
            let left = (count - (taken - used)) as nat;
            assert(self.agrees_outside(next, start, 1)) by {
                reveal(MachineView::agrees_outside);
            }
            self.lemma_identity_rest(next, start, frames);
            next.lemma_identity_map_range_in_tree(
                start + 1,
                (frames - 1) as nat,
                flags,
                allocator,
                taken,
                left,
            );
            let (after, last) = next.identity_map_range(
                start + 1,
                (frames - 1) as nat,
                flags,
                allocator,
                taken,
            );
            self.lemma_identity_step(next, after, start, frames);
            next.lemma_flags_step(after, start, frames, flags);
            self.lemma_confined_twice(next, after, allocator, used, taken, last);
        } else {
            self.lemma_fewer_fresh_frames(allocator, used, count, used, count);
            assert(self.maps_identity(start, 0)) by {
                reveal(MachineView::maps_identity);
            }
            assert(self.maps_range_with(start, 0, flags)) by {
                reveal(MachineView::maps_range_with);
            }
            assert(self.agrees_outside(self, start, 0)) by {
                reveal(MachineView::agrees_outside);
            }
            assert(self.confined_to(self, allocator, used, used)) by {
                reveal(MachineView::confined_to);
            }
        }
    }
}

impl MachineView {
    /// A page that nothing stands in the way of is not mapped.
    pub proof fn lemma_vacant_is_unmapped(self, page: nat)
        requires
            self.is_vacant(page),
        ensures
            self.mapping(page).is_none(),
            !self.is_leaf_mapped(page),
    {
        reveal(MachineView::is_vacant);
        crate::memory::paging::entry::lemma_flag_bits();
    }

    /// The tables on the way to a page are tables of the tree.
    pub proof fn lemma_page_tables_are_tables(self, page: nat)
        requires
            p4_index_of(page) != 511,
        ensures
            self.p3_table(page).is_some() ==> self.is_tree_table(self.p3_table(page).unwrap()),
            self.p2_table(page).is_some() ==> self.is_tree_table(self.p2_table(page).unwrap()),
            self.p1_table(page).is_some() ==> self.is_tree_table(self.p1_table(page).unwrap()),
            self.is_tree_table(self.root()),
    {
        self.lemma_tables_of_page(page);
        self.lemma_root_is_table();
        assert(is_path(0, 0, 0, 0));
    }
}

impl Machine {
    /// A machine whose memory holds one table and nothing else: the level-4
    /// table in `table_base`, loaded, with its last entry pointing to itself,
    /// present and writable. This is a tree of one table in which no page is
    /// mapped and nothing stands in the way of any.
    pub fn with_empty_table(table_base: Frame) -> (machine: Machine)
        requires
            table_base@ < ENTRY_FRAME_LIMIT,
        ensures
            machine@.table_base == table_base@,
            machine@.root() == table_base@,
            machine@.flushes == Seq::<TlbFlush>::empty(),
            machine@.entry(table_base@, 511) == make_word(table_base@, PRESENT | WRITABLE),
            forall|frame: nat, i: nat|
                i < 512 && !(frame == table_base@ && i == 511) ==> #[trigger] machine@.entry(
                    frame,
                    i,
                ) == 0,
            machine@.is_tree(),
            forall|frame: nat| #[trigger] machine@.is_tree_table(frame) == (frame == table_base@),
            forall|page: nat|
                p4_index_of(page) != 511 ==> (#[trigger] machine@.mapping(page)).is_none(),
            forall|page: nat| p4_index_of(page) != 511 ==> #[trigger] machine@.is_vacant(page),
    {
        let mut machine = Machine::new(table_base.clone());
        let ghost empty = machine@;
        let mut entry = PageEntry(0);
        entry.set(table_base.clone(), PageEntryFlags::from_bits_truncate(PRESENT | WRITABLE));
        machine.write(&table_base, 511, entry.0);
        proof {
            crate::memory::paging::entry::lemma_flag_bits();
            lemma_make_word(table_base@ as u64, PRESENT | WRITABLE);
            assert forall|frame: nat, i: nat|
                i < 512 && !(frame == table_base@ && i == 511) implies #[trigger] machine@.entry(
                frame,
                i,
            ) == 0 by {
                assert(frame * 512 + i != table_base@ * 512 + 511);
                assert(empty.words[frame * 512 + i] == 0);
            }
            assert(machine@.recursive());
            machine@.lemma_empty_tree();
        }
        machine
    }
}

impl Mapper {
    /// Whether nothing stands in the way of mapping `page`: where a table on
    /// the way is missing, the entry that would lead to it is no huge page,
    /// and where all tables are there, the page's entry is unused.
    pub fn is_vacant(&self, page: Page) -> (vacant: bool)
        requires
            self@.recursive(),
        ensures
            vacant == self@.is_vacant(page@),
    {
        proof {
            reveal(MachineView::is_vacant);
            self@.lemma_table_addresses(page@);
        }
        let machine = self.machine();
        let p4 = self.p4();
        let p3 = match p4.next_table(machine, page.p4_index()) {
            Some(table) => table,
            None => {
                return !p4.entry(machine, page.p4_index()).flags().contains_bits(HUGE_PAGE);
            },
        };
        let p2 = match p3.next_table(machine, page.p3_index()) {
            Some(table) => table,
            None => {
                return !p3.entry(machine, page.p3_index()).flags().contains_bits(HUGE_PAGE);
            },
        };
        let p1 = match p2.next_table(machine, page.p2_index()) {
            Some(table) => table,
            None => {
                return !p2.entry(machine, page.p2_index()).flags().contains_bits(HUGE_PAGE);
            },
        };
        p1.entry(machine, page.p1_index()).is_unused()
    }
}

} // verus!
